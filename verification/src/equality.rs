//! When two trees are the same: `==` on tags and on the members of compounds.
//!
//! The order of the members of a compound does not count; everything else
//! does, names included. Floats and doubles are the same when their bits are.

use vstd::prelude::*;
use vstd::std_specs::cmp::PartialEqSpecImpl;

use crate::entries::{distinct_keys, has_key, key_index, lemma_key_index, Entries, Members};
use crate::tag::{views, Payload, Tag, TagView};

verus! {

/// Two tags are the same: they have the same name and the same payload.
pub open spec fn same_tree(a: TagView, b: TagView) -> bool
    decreases a, 1nat,
{
    a.name == b.name && same_payload(a.payload, b.payload)
}

/// Two payloads are the same: they are of one kind and hold the same value;
/// for lists, the same elements in the same order; for compounds, the same
/// members whatever their order.
pub open spec fn same_payload(a: Payload, b: Payload) -> bool
    decreases a, 0nat,
{
    match a {
        Payload::List { element_id, elements } => {
            &&& b is List
            &&& b.element_id() == element_id
            &&& same_elements(elements, b.elements())
        },
        Payload::Compound(members) => b is Compound && same_members(members, b.members()),
        _ => a == b,
    }
}

/// Two sequences of elements are the same: equally long, and the same place
/// by place.
pub open spec fn same_elements(a: Seq<TagView>, b: Seq<TagView>) -> bool
    decreases a, 0nat,
{
    &&& a.len() == b.len()
    &&& forall|i: int| 0 <= i < a.len() ==> same_tree(#[trigger] a[i], b[i])
}

/// Two sets of members are the same: equally many, and each member of the
/// first has its like under the same key in the second.
pub open spec fn same_members(a: Members, b: Members) -> bool
    decreases a, 0nat,
{
    &&& a.len() == b.len()
    &&& forall|i: int|
        0 <= i < a.len() ==> {
            &&& has_key(b, (#[trigger] a[i]).0)
            &&& same_tree(a[i].1, b[key_index(b, a[i].0)].1)
        }
}

/// In every compound of the tree, at whatever depth, no key stands twice.
/// This holds of the view of every `Tag`.
pub open spec fn distinct_throughout(p: Payload) -> bool
    decreases p,
{
    match p {
        Payload::List { element_id, elements } => forall|i: int|
            0 <= i < elements.len() ==> distinct_throughout((#[trigger] elements[i]).payload),
        Payload::Compound(members) => {
            &&& distinct_keys(members)
            &&& forall|i: int|
                0 <= i < members.len() ==> distinct_throughout((#[trigger] members[i]).1.payload)
        },
        _ => true,
    }
}

/// A payload is the same as itself, if no key stands twice in a compound of
/// it.
pub proof fn lemma_same_payload_reflexive(p: Payload)
    requires
        distinct_throughout(p),
    ensures
        same_payload(p, p),
    decreases p,
{
    match p {
        Payload::List { element_id, elements } => {
            assert forall|i: int| 0 <= i < elements.len() implies same_tree(
                #[trigger] elements[i],
                elements[i],
            ) by {
                lemma_same_payload_reflexive(elements[i].payload);
            }
        },
        Payload::Compound(members) => {
            assert forall|i: int| 0 <= i < members.len() implies {
                &&& has_key(members, (#[trigger] members[i]).0)
                &&& same_tree(members[i].1, members[key_index(members, members[i].0)].1)
            } by {
                lemma_key_index(members, members[i].0);
                let k = key_index(members, members[i].0);
                if k > i {
                    assert(members[i].0 != members[i].0);
                }
                if k < i {
                    assert(members[k].0 != members[i].0);
                }
                lemma_same_payload_reflexive(members[i].1.payload);
            }
        },
        _ => {},
    }
}

/// A tag is the same as itself, if no key stands twice in a compound of it.
pub proof fn lemma_same_tree_reflexive(t: TagView)
    requires
        distinct_throughout(t.payload),
    ensures
        same_tree(t, t),
{
    lemma_same_payload_reflexive(t.payload);
}

/// Whether two names are the same.
fn same_name(a: Option<&str>, b: Option<&str>) -> (r: bool)
    ensures
        r == match (a, b) {
            (Some(x), Some(y)) => x@ == y@,
            (None, None) => true,
            _ => false,
        },
{
    match (a, b) {
        (Some(x), Some(y)) => crate::text::same_text(x, y),
        (None, None) => true,
        _ => false,
    }
}

/// Whether two vectors of bytes hold the same bytes.
fn same_bytes(a: &Vec<u8>, b: &Vec<u8>) -> (r: bool)
    ensures
        r == (a@ == b@),
{
    if a.len() != b.len() {
        return false;
    }
    let mut i: usize = 0;
    while i < a.len()
        invariant
            i <= a@.len(),
            a@.len() == b@.len(),
            forall|j: int| 0 <= j < i ==> a@[j] == b@[j],
        decreases a@.len() - i,
    {
        if a[i] != b[i] {
            return false;
        }
        i += 1;
    }
    assert(a@ =~= b@);
    true
}

/// Whether two vectors of ints hold the same ints.
fn same_ints(a: &Vec<i32>, b: &Vec<i32>) -> (r: bool)
    ensures
        r == (a@ == b@),
{
    if a.len() != b.len() {
        return false;
    }
    let mut i: usize = 0;
    while i < a.len()
        invariant
            i <= a@.len(),
            a@.len() == b@.len(),
            forall|j: int| 0 <= j < i ==> a@[j] == b@[j],
        decreases a@.len() - i,
    {
        if a[i] != b[i] {
            return false;
        }
        i += 1;
    }
    assert(a@ =~= b@);
    true
}

/// Whether two vectors of longs hold the same longs.
fn same_longs(a: &Vec<i64>, b: &Vec<i64>) -> (r: bool)
    ensures
        r == (a@ == b@),
{
    if a.len() != b.len() {
        return false;
    }
    let mut i: usize = 0;
    while i < a.len()
        invariant
            i <= a@.len(),
            a@.len() == b@.len(),
            forall|j: int| 0 <= j < i ==> a@[j] == b@[j],
        decreases a@.len() - i,
    {
        if a[i] != b[i] {
            return false;
        }
        i += 1;
    }
    assert(a@ =~= b@);
    true
}

/// Whether two vectors of tags are the same place by place.
fn same_tags(a: &Vec<Tag>, b: &Vec<Tag>) -> (r: bool)
    ensures
        r == same_elements(views(a@), views(b@)),
    decreases views(a@), 0nat,
{
    if a.len() != b.len() {
        return false;
    }
    let mut i: usize = 0;
    while i < a.len()
        invariant
            i <= a@.len(),
            a@.len() == b@.len(),
            forall|j: int| 0 <= j < i ==> same_tree(#[trigger] views(a@)[j], views(b@)[j]),
        decreases a@.len() - i,
    {
        assert(views(a@)[i as int] == a@[i as int]@);
        assert(views(b@)[i as int] == b@[i as int]@);
        if !same_tag(&a[i], &b[i]) {
            return false;
        }
        i += 1;
    }
    true
}

/// Whether each member of `a` has its like under the same key in `b`, and
/// `b` has no more members than `a`.
fn same_entries(a: &Entries, b: &Entries) -> (r: bool)
    ensures
        r == same_members(a@, b@),
    decreases a@, 0nat,
{
    let n = a.len();
    if n != b.len() {
        return false;
    }
    let mut i: usize = 0;
    while i < n
        invariant
            i <= n,
            n == a@.len(),
            a@.len() == b@.len(),
            forall|j: int|
                0 <= j < i ==> {
                    &&& has_key(b@, (#[trigger] a@[j]).0)
                    &&& same_tree(a@[j].1, b@[key_index(b@, a@[j].0)].1)
                },
        decreases n - i,
    {
        match b.get(a.key_at(i)) {
            Some(other) => {
                if !same_tag(a.tag_at(i), other) {
                    return false;
                }
            },
            None => {
                return false;
            },
        }
        i += 1;
    }
    true
}

/// Whether two tags are the same.
fn same_tag(a: &Tag, b: &Tag) -> (r: bool)
    ensures
        r == same_tree(a@, b@),
    decreases a@.payload, 1nat,
{
    if !same_name(a.name(), b.name()) {
        return false;
    }
    match (a, b) {
        (Tag::End, Tag::End) => true,
        (Tag::Byte { value: x, .. }, Tag::Byte { value: y, .. }) => *x == *y,
        (Tag::Short { value: x, .. }, Tag::Short { value: y, .. }) => *x == *y,
        (Tag::Int { value: x, .. }, Tag::Int { value: y, .. }) => *x == *y,
        (Tag::Long { value: x, .. }, Tag::Long { value: y, .. }) => *x == *y,
        (Tag::Float { value: x, .. }, Tag::Float { value: y, .. }) => *x == *y,
        (Tag::Double { value: x, .. }, Tag::Double { value: y, .. }) => *x == *y,
        (Tag::ByteArray { value: x, .. }, Tag::ByteArray { value: y, .. }) => same_bytes(x, y),
        (Tag::String { value: x, .. }, Tag::String { value: y, .. }) => crate::text::same_text(
            x.as_str(),
            y.as_str(),
        ),
        (
            Tag::List { element_id: x, elements: v, .. },
            Tag::List { element_id: y, elements: w, .. },
        ) => {
            assert(decreases_to!(a@.payload => a@.payload->elements));
            *x == *y && same_tags(v, w)
        },
        (Tag::Compound { entries: x, .. }, Tag::Compound { entries: y, .. }) => {
            assert(decreases_to!(a@.payload => a@.payload->Compound_0));
            same_entries(x, y)
        },
        (Tag::IntArray { value: x, .. }, Tag::IntArray { value: y, .. }) => same_ints(x, y),
        (Tag::LongArray { value: x, .. }, Tag::LongArray { value: y, .. }) => same_longs(x, y),
        _ => false,
    }
}

impl PartialEq for Tag {
    fn eq(&self, other: &Tag) -> (r: bool) {
        same_tag(self, other)
    }
}

impl PartialEqSpecImpl for Tag {
    open spec fn obeys_eq_spec() -> bool {
        true
    }

    open spec fn eq_spec(&self, other: &Tag) -> bool {
        same_tree(self@, other@)
    }
}

impl PartialEq for Entries {
    fn eq(&self, other: &Entries) -> (r: bool) {
        same_entries(self, other)
    }
}

impl PartialEqSpecImpl for Entries {
    open spec fn obeys_eq_spec() -> bool {
        true
    }

    open spec fn eq_spec(&self, other: &Entries) -> bool {
        same_members(self@, other@)
    }
}

} // verus!
