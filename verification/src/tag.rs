//! The tag tree: the thirteen kinds of value, their mathematical model, and the
//! few operations that build and navigate a tree.

use vstd::prelude::*;

use crate::entries::{copy_entries, has_key, lookup, with_member, Entries};
use crate::text::{owned, some_owned};

verus! {

/// The byte that tells the kind of a tag on the wire.
pub type TagId = u8;

/// One node of the tree: a value of one of thirteen kinds, with a name unless
/// it is the end marker or stands in a list.
///
/// A `Float` holds the thirty-two bits of an IEEE-754 single, a `Double` the
/// sixty-four bits of a double: the codec moves the bits and never computes
/// with the number.
#[allow(inconsistent_fields)]
#[derive(Debug)]
pub enum Tag {
    End,
    Byte { name: Option<String>, value: i8 },
    Short { name: Option<String>, value: i16 },
    Int { name: Option<String>, value: i32 },
    Long { name: Option<String>, value: i64 },
    Float { name: Option<String>, value: u32 },
    Double { name: Option<String>, value: u64 },
    ByteArray { name: Option<String>, value: Vec<u8> },
    String { name: Option<String>, value: String },
    List { name: Option<String>, element_id: TagId, elements: Vec<Tag> },
    Compound { name: Option<String>, entries: Entries },
    IntArray { name: Option<String>, value: Vec<i32> },
    LongArray { name: Option<String>, value: Vec<i64> },
}

/// What a tag holds besides its name, as a mathematical value.
pub enum Payload {
    End,
    Byte(i8),
    Short(i16),
    Int(i32),
    Long(i64),
    Float(u32),
    Double(u64),
    ByteArray(Seq<u8>),
    String(Seq<char>),
    List { element_id: u8, elements: Seq<TagView> },
    Compound(Seq<(Seq<char>, TagView)>),
    IntArray(Seq<i32>),
    LongArray(Seq<i64>),
}

/// A tag as a mathematical value: its name and its payload.
///
/// The members of a compound are a sequence of pairs of key and tag, in the
/// order in which they are written.
pub struct TagView {
    pub name: Option<Seq<char>>,
    pub payload: Payload,
}

impl Payload {
    /// The byte that tells this kind of payload on the wire.
    pub open spec fn id(self) -> u8 {
        match self {
            Payload::End => 0,
            Payload::Byte(_) => 1,
            Payload::Short(_) => 2,
            Payload::Int(_) => 3,
            Payload::Long(_) => 4,
            Payload::Float(_) => 5,
            Payload::Double(_) => 6,
            Payload::ByteArray(_) => 7,
            Payload::String(_) => 8,
            Payload::List { .. } => 9,
            Payload::Compound(_) => 10,
            Payload::IntArray(_) => 11,
            Payload::LongArray(_) => 12,
        }
    }
}

impl Payload {
    /// The members of a compound; none for another kind.
    pub open spec fn members(self) -> Seq<(Seq<char>, TagView)> {
        match self {
            Payload::Compound(members) => members,
            _ => Seq::empty(),
        }
    }

    /// The elements of a list; none for another kind.
    pub open spec fn elements(self) -> Seq<TagView> {
        match self {
            Payload::List { elements, .. } => elements,
            _ => Seq::empty(),
        }
    }

    /// The kind that a list declares for its elements; zero for another kind.
    pub open spec fn element_id(self) -> u8 {
        match self {
            Payload::List { element_id, .. } => element_id,
            _ => 0,
        }
    }
}

impl TagView {
    /// The end marker: no name, no payload.
    pub open spec fn end() -> TagView {
        TagView { name: None, payload: Payload::End }
    }
}

/// The name of a tag as a mathematical value.
pub open spec fn name_view(name: Option<String>) -> Option<Seq<char>> {
    match name {
        Some(s) => Some(s@),
        None => None,
    }
}

/// The models of the tags of a vector, in order.
pub open spec fn views(tags: Seq<Tag>) -> Seq<TagView>
    decreases tags,
{
    Seq::new(
        tags.len(),
        |i: int|
            if 0 <= i < tags.len() {
                tags[i].view()
            } else {
                TagView::end()
            },
    )
}

impl View for Tag {
    type V = TagView;

    open spec fn view(&self) -> TagView
        decreases self,
    {
        match *self {
            Tag::End => TagView::end(),
            Tag::Byte { name, value } => TagView {
                name: name_view(name),
                payload: Payload::Byte(value),
            },
            Tag::Short { name, value } => TagView {
                name: name_view(name),
                payload: Payload::Short(value),
            },
            Tag::Int { name, value } => TagView {
                name: name_view(name),
                payload: Payload::Int(value),
            },
            Tag::Long { name, value } => TagView {
                name: name_view(name),
                payload: Payload::Long(value),
            },
            Tag::Float { name, value } => TagView {
                name: name_view(name),
                payload: Payload::Float(value),
            },
            Tag::Double { name, value } => TagView {
                name: name_view(name),
                payload: Payload::Double(value),
            },
            Tag::ByteArray { name, value } => TagView {
                name: name_view(name),
                payload: Payload::ByteArray(value@),
            },
            Tag::String { name, value } => TagView {
                name: name_view(name),
                payload: Payload::String(value@),
            },
            Tag::List { name, element_id, elements } => TagView {
                name: name_view(name),
                payload: Payload::List { element_id, elements: views(elements@) },
            },
            Tag::Compound { name, entries } => TagView {
                name: name_view(name),
                payload: Payload::Compound(entries.view()),
            },
            Tag::IntArray { name, value } => TagView {
                name: name_view(name),
                payload: Payload::IntArray(value@),
            },
            Tag::LongArray { name, value } => TagView {
                name: name_view(name),
                payload: Payload::LongArray(value@),
            },
        }
    }
}

impl Tag {
    /// A byte tag called `name`.
    pub fn new_byte(name: &str, v: i8) -> (tag: Tag)
        ensures
            tag@ == (TagView { name: Some(name@), payload: Payload::Byte(v) }),
    {
        Tag::Byte { name: some_owned(name), value: v }
    }

    /// A short tag called `name`.
    pub fn new_short(name: &str, v: i16) -> (tag: Tag)
        ensures
            tag@ == (TagView { name: Some(name@), payload: Payload::Short(v) }),
    {
        Tag::Short { name: some_owned(name), value: v }
    }

    /// An int tag called `name`.
    pub fn new_int(name: &str, v: i32) -> (tag: Tag)
        ensures
            tag@ == (TagView { name: Some(name@), payload: Payload::Int(v) }),
    {
        Tag::Int { name: some_owned(name), value: v }
    }

    /// A long tag called `name`.
    pub fn new_long(name: &str, v: i64) -> (tag: Tag)
        ensures
            tag@ == (TagView { name: Some(name@), payload: Payload::Long(v) }),
    {
        Tag::Long { name: some_owned(name), value: v }
    }

    /// A float tag called `name`, from the bits of the number.
    pub fn new_float(name: &str, v: u32) -> (tag: Tag)
        ensures
            tag@ == (TagView { name: Some(name@), payload: Payload::Float(v) }),
    {
        Tag::Float { name: some_owned(name), value: v }
    }

    /// A double tag called `name`, from the bits of the number.
    pub fn new_double(name: &str, v: u64) -> (tag: Tag)
        ensures
            tag@ == (TagView { name: Some(name@), payload: Payload::Double(v) }),
    {
        Tag::Double { name: some_owned(name), value: v }
    }

    /// A byte-array tag called `name`.
    pub fn new_byte_array(name: &str, v: Vec<u8>) -> (tag: Tag)
        ensures
            tag@ == (TagView { name: Some(name@), payload: Payload::ByteArray(v@) }),
    {
        Tag::ByteArray { name: some_owned(name), value: v }
    }

    /// A string tag called `name`.
    pub fn new_string(name: &str, v: &str) -> (tag: Tag)
        ensures
            tag@ == (TagView { name: Some(name@), payload: Payload::String(v@) }),
    {
        Tag::String { name: some_owned(name), value: owned(v) }
    }

    /// A list tag called `name`, declared to hold elements of kind
    /// `element_id`. The elements are taken as they are: nothing checks their
    /// kind against `element_id`.
    pub fn new_list(name: &str, element_id: TagId, elements: Vec<Tag>) -> (tag: Tag)
        ensures
            tag@ == (TagView {
                name: Some(name@),
                payload: Payload::List { element_id, elements: views(elements@) },
            }),
    {
        Tag::List { name: some_owned(name), element_id, elements }
    }

    /// A compound tag called `name`, without members.
    pub fn new_compound(name: &str) -> (tag: Tag)
        ensures
            tag@ == (TagView { name: Some(name@), payload: Payload::Compound(Seq::empty()) }),
    {
        Tag::Compound { name: some_owned(name), entries: Entries::new() }
    }

    /// An int-array tag called `name`.
    pub fn new_int_array(name: &str, v: Vec<i32>) -> (tag: Tag)
        ensures
            tag@ == (TagView { name: Some(name@), payload: Payload::IntArray(v@) }),
    {
        Tag::IntArray { name: some_owned(name), value: v }
    }

    /// A long-array tag called `name`.
    pub fn new_long_array(name: &str, v: Vec<i64>) -> (tag: Tag)
        ensures
            tag@ == (TagView { name: Some(name@), payload: Payload::LongArray(v@) }),
    {
        Tag::LongArray { name: some_owned(name), value: v }
    }

    /// The byte that tells the kind of this tag on the wire: 0 for the end
    /// marker, then 1 to 12 in the order of the variants.
    pub fn id(&self) -> (id: TagId)
        ensures
            id == self@.payload.id(),
            id <= 12,
    {
        match self {
            Tag::End => 0,
            Tag::Byte { .. } => 1,
            Tag::Short { .. } => 2,
            Tag::Int { .. } => 3,
            Tag::Long { .. } => 4,
            Tag::Float { .. } => 5,
            Tag::Double { .. } => 6,
            Tag::ByteArray { .. } => 7,
            Tag::String { .. } => 8,
            Tag::List { .. } => 9,
            Tag::Compound { .. } => 10,
            Tag::IntArray { .. } => 11,
            Tag::LongArray { .. } => 12,
        }
    }

    /// The name of this tag; none for the end marker and for a tag made
    /// without one, as the elements of a list are.
    pub fn name(&self) -> (r: Option<&str>)
        ensures
            r is Some == self@.name is Some,
            r is Some ==> r.unwrap()@ == self@.name.unwrap(),
    {
        match self {
            Tag::End => None,
            Tag::Byte { name, .. }
            | Tag::Short { name, .. }
            | Tag::Int { name, .. }
            | Tag::Long { name, .. }
            | Tag::Float { name, .. }
            | Tag::Double { name, .. }
            | Tag::ByteArray { name, .. }
            | Tag::String { name, .. }
            | Tag::List { name, .. }
            | Tag::Compound { name, .. }
            | Tag::IntArray { name, .. }
            | Tag::LongArray { name, .. } => match name {
                Some(s) => Some(s.as_str()),
                None => None,
            },
        }
    }

    /// The member of a compound that is stored under `key`; none if there is
    /// no such member, and none for a tag that is not a compound.
    pub fn get(&self, key: &str) -> (r: Option<&Tag>)
        ensures
            match self@.payload {
                Payload::Compound(members) => {
                    &&& r is Some == has_key(members, key@)
                    &&& r is Some ==> Some(r.unwrap()@) == lookup(members, key@)
                },
                _ => r is None,
            },
    {
        match self {
            Tag::Compound { entries, .. } => entries.get(key),
            _ => None,
        }
    }

    /// Stores `tag` under `key` in a compound: in the place of the member that
    /// had the key, or else after the others. Only a compound has members.
    pub fn insert(&mut self, key: String, tag: Tag)
        requires
            *old(self) is Compound,
        ensures
            final(self)@ == (TagView {
                name: old(self)@.name,
                payload: Payload::Compound(with_member(old(self)@.payload.members(), key@, tag@)),
            }),
    {
        match self {
            Tag::Compound { entries, .. } => {
                entries.insert(key, tag);
            },
            _ => {},
        }
    }

    /// Appends `tag` to a list. Only a list has elements. The kind of `tag`
    /// is not held against the kind that the list declares.
    pub fn push(&mut self, tag: Tag)
        requires
            *old(self) is List,
        ensures
            final(self)@ == (TagView {
                name: old(self)@.name,
                payload: Payload::List {
                    element_id: old(self)@.payload.element_id(),
                    elements: old(self)@.payload.elements().push(tag@),
                },
            }),
    {
        match self {
            Tag::List { elements, .. } => {
                let ghost before = views(elements@);
                elements.push(tag);
                assert(views(elements@) =~= before.push(tag@));
            },
            _ => {},
        }
    }
}

/// A copy of `tags`, tag by tag.
fn copy_tags(tags: &Vec<Tag>) -> (r: Vec<Tag>)
    ensures
        views(r@) == views(tags@),
    decreases views(tags@), 0nat,
{
    let mut r: Vec<Tag> = Vec::new();
    let mut i: usize = 0;
    while i < tags.len()
        invariant
            i <= tags@.len(),
            r@.len() == i,
            forall|j: int| 0 <= j < i ==> (#[trigger] r@[j])@ == tags@[j]@,
        decreases tags@.len() - i,
    {
        assert(views(tags@)[i as int] == tags@[i as int]@);
        r.push(copy_tag(&tags[i]));
        i += 1;
    }
    assert(views(r@) =~= views(tags@));
    r
}

/// A copy of `tag`, with all that stands below it.
pub(crate) fn copy_tag(tag: &Tag) -> (r: Tag)
    ensures
        r@ == tag@,
    decreases tag@.payload, 1nat,
{
    match tag {
        Tag::End => Tag::End,
        Tag::Byte { name, value } => Tag::Byte { name: name.clone(), value: *value },
        Tag::Short { name, value } => Tag::Short { name: name.clone(), value: *value },
        Tag::Int { name, value } => Tag::Int { name: name.clone(), value: *value },
        Tag::Long { name, value } => Tag::Long { name: name.clone(), value: *value },
        Tag::Float { name, value } => Tag::Float { name: name.clone(), value: *value },
        Tag::Double { name, value } => Tag::Double { name: name.clone(), value: *value },
        Tag::ByteArray { name, value } => Tag::ByteArray {
            name: name.clone(),
            value: value.clone(),
        },
        Tag::String { name, value } => Tag::String { name: name.clone(), value: value.clone() },
        Tag::List { name, element_id, elements } => {
            assert(decreases_to!(tag@.payload => tag@.payload->elements));
            Tag::List { name: name.clone(), element_id: *element_id, elements: copy_tags(elements) }
        },
        Tag::Compound { name, entries } => {
            assert(decreases_to!(tag@.payload => tag@.payload->Compound_0));
            Tag::Compound { name: name.clone(), entries: copy_entries(entries) }
        },
        Tag::IntArray { name, value } => Tag::IntArray { name: name.clone(), value: value.clone() },
        Tag::LongArray { name, value } => Tag::LongArray {
            name: name.clone(),
            value: value.clone(),
        },
    }
}

impl Clone for Tag {
    fn clone(&self) -> (r: Tag)
        ensures
            r@ == self@,
    {
        copy_tag(self)
    }
}

} // verus!
