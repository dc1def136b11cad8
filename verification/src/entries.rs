//! The members of a compound: a map from names to tags that keeps the order
//! in which its keys first came.

use vstd::prelude::*;

use crate::tag::{copy_tag, Tag, TagView};
use crate::text::same_text;

verus! {

/// The members of a compound as a mathematical value: pairs of key and tag.
pub type Members = Seq<(Seq<char>, TagView)>;

/// The first place at which `key` stands in `members`, or their number if it
/// stands nowhere.
pub open spec fn key_index(members: Members, key: Seq<char>) -> int
    decreases members.len(),
{
    if members.len() == 0 {
        0
    } else if members[0].0 == key {
        0
    } else {
        1 + key_index(members.skip(1), key)
    }
}

/// Whether a member is stored under `key`.
pub open spec fn has_key(members: Members, key: Seq<char>) -> bool {
    key_index(members, key) < members.len()
}

/// The tag stored under `key`, if there is one.
pub open spec fn lookup(members: Members, key: Seq<char>) -> Option<TagView> {
    if has_key(members, key) {
        Some(members[key_index(members, key)].1)
    } else {
        None
    }
}

/// `members` after `tag` was stored under `key`: in the place of the member
/// that had the key, or else at the end.
pub open spec fn with_member(members: Members, key: Seq<char>, tag: TagView) -> Members {
    if has_key(members, key) {
        members.update(key_index(members, key), (key, tag))
    } else {
        members.push((key, tag))
    }
}

/// No key stands at two places.
pub open spec fn distinct_keys(members: Members) -> bool {
    forall|i: int, j: int|
        0 <= i < j < members.len() ==> (#[trigger] members[i]).0 != (#[trigger] members[j]).0
}

/// `key_index` is the one place that holds the key and has none before it.
pub proof fn lemma_key_index(members: Members, key: Seq<char>)
    ensures
        0 <= key_index(members, key) <= members.len(),
        has_key(members, key) ==> members[key_index(members, key)].0 == key,
        forall|j: int| 0 <= j < key_index(members, key) ==> (#[trigger] members[j]).0 != key,
    decreases members.len(),
{
    if members.len() > 0 && members[0].0 != key {
        let tail = members.skip(1);
        lemma_key_index(tail, key);
        assert forall|j: int| 0 <= j < key_index(members, key) implies (#[trigger] members[j]).0
            != key by {
            if j > 0 {
                assert(members[j] == tail[j - 1]);
            }
        }
    }
}

/// A place that holds the key, with none before it, is `key_index`; so is the
/// end, if the key stands nowhere.
pub proof fn lemma_key_index_is(members: Members, key: Seq<char>, i: int)
    requires
        0 <= i <= members.len(),
        i < members.len() ==> members[i].0 == key,
        forall|j: int| 0 <= j < i ==> (#[trigger] members[j]).0 != key,
    ensures
        key_index(members, key) == i,
{
    lemma_key_index(members, key);
    let k = key_index(members, key);
    if k < i {
        assert(members[k].0 != key);
    }
}

/// Storing a member keeps the keys distinct.
pub proof fn lemma_with_member_distinct(members: Members, key: Seq<char>, tag: TagView)
    requires
        distinct_keys(members),
    ensures
        distinct_keys(with_member(members, key, tag)),
{
    lemma_key_index(members, key);
    let after = with_member(members, key, tag);
    let k = key_index(members, key);
    assert forall|i: int, j: int| 0 <= i < j < after.len() implies (#[trigger] after[i]).0 != (
    #[trigger] after[j]).0 by {
        if has_key(members, key) {
            assert(after[i].0 == members[i].0);
            assert(after[j].0 == members[j].0);
        } else {
            if j == members.len() {
                assert(members[i].0 != key);
            } else {
                assert(after[i] == members[i]);
                assert(after[j] == members[j]);
            }
        }
    }
}

/// The members of a compound. A key stands at most once; a member keeps the
/// place at which its key first came.
#[derive(Debug)]
pub struct Entries {
    items: Vec<(String, Tag)>,
}

/// The keys and tags of stored members as mathematical values, in order.
pub open spec fn members_of(items: Seq<(String, Tag)>) -> Members
    decreases items,
{
    Seq::new(
        items.len(),
        |i: int|
            if 0 <= i < items.len() {
                (items[i].0@, items[i].1.view())
            } else {
                (Seq::empty(), TagView::end())
            },
    )
}

impl View for Entries {
    type V = Members;

    closed spec fn view(&self) -> Members
        decreases self,
    {
        members_of(self.items@)
    }
}

impl Entries {
    #[verifier::type_invariant]
    spec fn keys_are_distinct(&self) -> bool {
        distinct_keys(self@)
    }

    /// No members.
    pub fn new() -> (r: Entries)
        ensures
            r@ == Members::empty(),
    {
        let r = Entries { items: Vec::new() };
        assert(r@ =~= Members::empty());
        r
    }

    /// The number of members. No key stands twice among them.
    pub fn len(&self) -> (n: usize)
        ensures
            n == self@.len(),
            distinct_keys(self@),
    {
        proof {
            use_type_invariant(self);
        }
        self.items.len()
    }

    /// Whether there is no member.
    pub fn is_empty(&self) -> (r: bool)
        ensures
            r == (self@.len() == 0),
    {
        self.items.len() == 0
    }

    /// The key of the member at place `i`.
    pub fn key_at(&self, i: usize) -> (key: &str)
        requires
            i < self@.len(),
        ensures
            key@ == self@[i as int].0,
    {
        self.items[i].0.as_str()
    }

    /// The tag of the member at place `i`.
    pub fn tag_at(&self, i: usize) -> (tag: &Tag)
        requires
            i < self@.len(),
        ensures
            tag@ == self@[i as int].1,
    {
        &self.items[i].1
    }

    /// The place at which `key` stands, or the number of members.
    fn find(&self, key: &str) -> (i: usize)
        ensures
            i == key_index(self@, key@),
    {
        let mut i: usize = 0;
        while i < self.items.len()
            invariant
                i <= self.items@.len(),
                self@.len() == self.items@.len(),
                forall|j: int| 0 <= j < i ==> (#[trigger] self@[j]).0 != key@,
            decreases self.items@.len() - i,
        {
            if same_text(self.items[i].0.as_str(), key) {
                proof {
                    lemma_key_index_is(self@, key@, i as int);
                }
                return i;
            }
            i += 1;
        }
        proof {
            lemma_key_index_is(self@, key@, i as int);
        }
        i
    }

    /// The tag stored under `key`, if there is one.
    pub fn get(&self, key: &str) -> (r: Option<&Tag>)
        ensures
            r is Some == has_key(self@, key@),
            r is Some ==> Some(r.unwrap()@) == lookup(self@, key@),
    {
        let i = self.find(key);
        if i < self.items.len() {
            Some(&self.items[i].1)
        } else {
            None
        }
    }

    /// Stores `tag` under `key`: in the place of the member that had the key,
    /// or else at the end.
    pub fn insert(&mut self, key: String, tag: Tag)
        ensures
            final(self)@ == with_member(old(self)@, key@, tag@),
            distinct_keys(final(self)@),
    {
        proof {
            use_type_invariant(&*self);
            lemma_with_member_distinct(self@, key@, tag@);
        }
        let i = self.find(key.as_str());
        let mut taken = Entries::new();
        core::mem::swap(self, &mut taken);
        let mut items = taken.items;
        if i < items.len() {
            items[i] = (key, tag);
        } else {
            items.push((key, tag));
        }
        assert(members_of(items@) =~= with_member(old(self)@, key@, tag@));
        *self = Entries { items };
    }
}

/// A copy of `entries`, member by member.
pub(crate) fn copy_entries(entries: &Entries) -> (r: Entries)
    ensures
        r@ == entries@,
    decreases entries@, 0nat,
{
    proof {
        use_type_invariant(entries);
    }
    let mut items: Vec<(String, Tag)> = Vec::new();
    let mut i: usize = 0;
    while i < entries.items.len()
        invariant
            i <= entries.items@.len(),
            items@.len() == i,
            entries@ == members_of(entries.items@),
            forall|j: int| 0 <= j < i ==> (#[trigger] members_of(items@)[j]) == entries@[j],
        decreases entries.items@.len() - i,
    {
        let ghost before = members_of(items@);
        assert(entries@[i as int].1 == entries.items@[i as int].1@);
        let key = entries.items[i].0.clone();
        let tag = copy_tag(&entries.items[i].1);
        items.push((key, tag));
        assert forall|j: int| 0 <= j < i + 1 implies (#[trigger] members_of(items@)[j])
            == entries@[j] by {
            if j < i {
                assert(members_of(items@)[j] == before[j]);
            }
        }
        i += 1;
    }
    assert(members_of(items@) =~= entries@);
    Entries { items }
}

impl Clone for Entries {
    fn clone(&self) -> (r: Entries)
        ensures
            r@ == self@,
    {
        copy_entries(self)
    }
}

} // verus!
