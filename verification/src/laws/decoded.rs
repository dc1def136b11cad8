//! What was read is well formed: in particular, no element of a list has a
//! name.

use vstd::prelude::*;

use crate::entries::{
    distinct_keys, lemma_key_index, lemma_with_member_distinct, with_member, Members,
};
use crate::error::NbtError;
use crate::format::{
    after, decode_count, decode_elements, decode_members, decode_payload, decode_tag, decode_text,
    encode_elements, encode_tag, max_len16, well_formed, well_formed_payload, Decoded,
};
use crate::laws::joined::lemma_joined_empty;
use crate::laws::round_trip::{compound_members, lemma_round_trip, list_elements};
use crate::tag::{Payload, TagView};
use crate::text::{lemma_bytes_of_text, utf8_bytes};
use crate::wire::i16_at;

verus! {

/// What a text was read from: at most as many bytes as the prefix can
/// announce, and as many as the text has when it is written.
pub proof fn lemma_text_decoded(b: Seq<u8>)
    ensures
        match decode_text(b) {
            Ok((s, k)) => {
                &&& utf8_bytes(s).len() <= max_len16()
                &&& k == 2 + utf8_bytes(s).len()
                &&& k <= b.len()
            },
            Err(_) => true,
        },
{
    if decode_text(b) is Ok {
        lemma_bytes_of_text(b.subrange(2, 2 + i16_at(b)));
    }
}

/// Storing a member that can be written and read back keeps the members so.
pub proof fn lemma_with_member_kept(members: Members, key: Seq<char>, tag: TagView)
    requires
        compound_members(members),
        tag.name == Some(key),
        utf8_bytes(key).len() <= max_len16(),
        well_formed_payload(tag.payload),
    ensures
        compound_members(with_member(members, key, tag)),
{
    lemma_key_index(members, key);
    let stored = with_member(members, key, tag);
    assert forall|i: int| 0 <= i < stored.len() implies {
        &&& (#[trigger] stored[i]).1.name == Some(stored[i].0)
        &&& utf8_bytes(stored[i].0).len() <= max_len16()
        &&& well_formed_payload(stored[i].1.payload)
    } by {
        if stored[i] != (key, tag) {
            assert(stored[i] == members[i]);
        }
    }
}

/// A tag that was read as the payload of kind `id` under the name `name`
/// from `len` bytes, `k` of which it took: it has that kind and that name,
/// its payload is well formed, and it took at least one byte and no more
/// than there were.
pub open spec fn read_as(id: u8, name: Option<Seq<char>>, len: nat, r: Decoded<TagView>) -> bool {
    match r {
        Ok((t, k)) => {
            &&& t.name == name
            &&& t.payload.id() == id
            &&& well_formed_payload(t.payload)
            &&& 1 <= k <= len
        },
        Err(_) => true,
    }
}

/// What a number or an array of numbers is read as.
proof fn lemma_decoded_flat(id: u8, name: Option<Seq<char>>, b: Seq<u8>)
    requires
        1 <= id <= 7 || id == 11 || id == 12,
    ensures
        read_as(id, name, b.len(), decode_payload(id, name, b)),
{
}

/// What a string is read as.
proof fn lemma_decoded_string(name: Option<Seq<char>>, b: Seq<u8>)
    ensures
        read_as(8, name, b.len(), decode_payload(8, name, b)),
{
    lemma_text_decoded(b);
}

/// What a list is read as.
proof fn lemma_decoded_list(name: Option<Seq<char>>, b: Seq<u8>)
    ensures
        read_as(9, name, b.len(), decode_payload(9, name, b)),
    decreases b.len(), 1nat,
{
    if decode_payload(9, name, b) is Ok {
        let n = decode_count(after(b, 1))->Ok_0.0;
        lemma_decoded_elements(b[0], n, Seq::empty(), after(after(b, 1), 4));
    }
}

/// What a compound is read as.
proof fn lemma_decoded_compound(name: Option<Seq<char>>, b: Seq<u8>)
    ensures
        read_as(10, name, b.len(), decode_payload(10, name, b)),
    decreases b.len(), 1nat,
{
    lemma_decoded_members(Seq::empty(), b);
}

/// What the payload of a tag is read as: a tag of the kind and the name that
/// the reader asked for, with a well-formed payload, from at least one byte
/// and no more than there are.
pub proof fn lemma_decoded_payload(id: u8, name: Option<Seq<char>>, b: Seq<u8>)
    ensures
        read_as(id, name, b.len(), decode_payload(id, name, b)),
    decreases b.len(), 2nat,
{
    if 1 <= id <= 7 || id == 11 || id == 12 {
        lemma_decoded_flat(id, name, b);
    } else if id == 8 {
        lemma_decoded_string(name, b);
    } else if id == 9 {
        lemma_decoded_list(name, b);
    } else if id == 10 {
        lemma_decoded_compound(name, b);
    }
}

/// What the elements of a list are read as: as many as were announced, none
/// with a name, each of the list's kind and well formed.
pub proof fn lemma_decoded_elements(id: u8, n: nat, done: Seq<TagView>, b: Seq<u8>)
    requires
        list_elements(id, done),
    ensures
        match decode_elements(id, n, done, b) {
            Ok((v, k)) => {
                &&& v.len() == done.len() + n
                &&& list_elements(id, v)
                &&& k <= b.len()
            },
            Err(_) => true,
        },
    decreases b.len(), n + 2,
{
    if n > 0 {
        lemma_decoded_payload(id, None, b);
        match decode_payload(id, None, b) {
            Ok((t, k)) => {
                let next = done.push(t);
                assert forall|i: int| 0 <= i < next.len() implies {
                    &&& (#[trigger] next[i]).name is None
                    &&& next[i].payload.id() == id
                    &&& well_formed_payload(next[i].payload)
                } by {
                    if i < done.len() {
                        assert(next[i] == done[i]);
                    }
                }
                lemma_decoded_elements(id, (n - 1) as nat, next, after(b, k));
            },
            Err(_) => {},
        }
    }
}

/// What the members of a compound are read as: under distinct keys, each
/// tag called by its key, each key fitting its prefix, each payload well
/// formed.
pub proof fn lemma_decoded_members(done: Members, b: Seq<u8>)
    requires
        compound_members(done),
        distinct_keys(done),
    ensures
        match decode_members(done, b) {
            Ok((v, k)) => {
                &&& compound_members(v)
                &&& distinct_keys(v)
                &&& 1 <= k <= b.len()
            },
            Err(_) => true,
        },
    decreases b.len(), 0nat,
{
    if b.len() >= 1 && b[0] != 0 {
        lemma_text_decoded(after(b, 1));
        match decode_text(after(b, 1)) {
            Ok((key, k1)) => {
                let payload_on = after(after(b, 1), k1);
                lemma_decoded_payload(b[0], Some(key), payload_on);
                match decode_payload(b[0], Some(key), payload_on) {
                    Ok((t, k2)) => {
                        lemma_with_member_kept(done, key, t);
                        lemma_with_member_distinct(done, key, t);
                        lemma_decoded_members(with_member(done, key, t), after(payload_on, k2));
                    },
                    Err(_) => {},
                }
            },
            Err(_) => {},
        }
    }
}

/// What a tag is read as is well formed. In particular no element of a list,
/// at whatever depth, has a name.
pub proof fn lemma_decoded_well_formed(b: Seq<u8>)
    ensures
        match decode_tag(b) {
            Ok((t, k)) => well_formed(t) && 1 <= k <= b.len(),
            Err(_) => true,
        },
{
    if b.len() >= 1 && b[0] != 0 {
        lemma_text_decoded(after(b, 1));
        match decode_text(after(b, 1)) {
            Ok((name, k)) => {
                lemma_decoded_payload(b[0], Some(name), after(after(b, 1), k));
            },
            Err(_) => {},
        }
    }
}

/// No element of a list has a name, in this payload and at whatever depth
/// below it.
pub open spec fn elements_unnamed(p: Payload) -> bool
    decreases p,
{
    match p {
        Payload::List { element_id, elements } => forall|i: int|
            0 <= i < elements.len() ==> (#[trigger] elements[i]).name is None && elements_unnamed(
                elements[i].payload,
            ),
        Payload::Compound(members) => forall|i: int|
            0 <= i < members.len() ==> elements_unnamed((#[trigger] members[i]).1.payload),
        _ => true,
    }
}

/// In a well-formed payload no element of a list has a name.
pub proof fn lemma_well_formed_unnamed(p: Payload)
    requires
        well_formed_payload(p),
    ensures
        elements_unnamed(p),
    decreases p,
{
    match p {
        Payload::List { element_id, elements } => {
            assert forall|i: int| 0 <= i < elements.len() implies (#[trigger] elements[i]).name
                is None && elements_unnamed(elements[i].payload) by {
                lemma_well_formed_unnamed(elements[i].payload);
            }
        },
        Payload::Compound(members) => {
            assert forall|i: int| 0 <= i < members.len() implies elements_unnamed(
                (#[trigger] members[i]).1.payload,
            ) by {
                lemma_well_formed_unnamed(members[i].1.payload);
            }
        },
        _ => {},
    }
}

/// List homogeneity: in what a tag is read as, no element of a list has a
/// name, at whatever depth, whatever the bytes were written from.
pub proof fn lemma_decoded_elements_unnamed(b: Seq<u8>)
    ensures
        match decode_tag(b) {
            Ok((t, _)) => elements_unnamed(t.payload),
            Err(_) => true,
        },
{
    lemma_decoded_well_formed(b);
    match decode_tag(b) {
        Ok((t, _)) => {
            if t != TagView::end() {
                lemma_well_formed_unnamed(t.payload);
            }
        },
        Err(_) => {},
    }
}

/// The elements without their names.
pub open spec fn without_names(elements: Seq<TagView>) -> Seq<TagView> {
    Seq::new(elements.len(), |i: int| TagView { name: None, payload: elements[i].payload })
}

/// List homogeneity: the elements of a list are written as they would be
/// without their names.
pub proof fn lemma_names_of_elements_unwritten(elements: Seq<TagView>)
    ensures
        encode_elements(elements) == encode_elements(without_names(elements)),
    decreases elements.len(),
{
    if elements.len() > 0 {
        lemma_names_of_elements_unwritten(elements.skip(1));
        assert(without_names(elements).skip(1) =~= without_names(elements.skip(1)));
    }
}

/// The well-formed tags are exactly those that are read back from their own
/// encoding.
pub proof fn lemma_round_trip_exactly(t: TagView)
    ensures
        well_formed(t) <==> decode_tag(encode_tag(t)) == Ok::<_, NbtError>(
            (t, encode_tag(t).len()),
        ),
{
    if well_formed(t) {
        lemma_round_trip(t, Seq::empty());
        lemma_joined_empty(encode_tag(t));
    } else {
        lemma_decoded_well_formed(encode_tag(t));
    }
}

} // verus!
