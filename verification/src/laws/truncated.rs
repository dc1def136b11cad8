//! Truncated input: an encoding that is cut short is never read as a value.
//! Also: a compound without its closing byte, and a kind that is unknown.

use vstd::prelude::*;

use crate::entries::{with_member, Members};
use crate::error::NbtError;
use crate::format::{
    decode_byte_array, decode_elements, decode_int_array, decode_long_array, decode_members,
    decode_payload, decode_tag, decode_text, after, encode_elements, encode_ints, encode_longs,
    encode_member, encode_members, encode_payload, encode_tag, encode_text, lemma_element_fails,
    lemma_element_step, lemma_member_fails_at_key, lemma_member_fails_at_payload,
    lemma_tag_fails_at_name, lemma_tag_step, len32, max_len16, max_len32, well_formed,
    well_formed_payload, Decoded,
};
use crate::laws::joined::{
    lemma_after_joined, lemma_head, lemma_joined3, lemma_take_of_joined,
};
use crate::laws::round_trip::{
    compound_members, lemma_compound_members_split, lemma_count_round_trip, lemma_i64_round_trip,
    lemma_ints_skip, lemma_list_elements_split, lemma_longs_skip, lemma_member_read,
    lemma_payload_round_trip, lemma_text_round_trip, lemma_u64_round_trip, list_elements,
};
use crate::tag::{Payload, TagView};
use crate::text::utf8_bytes;
use crate::wire::{be16, lemma_be16_val};

verus! {

/// The failure of a truncated input, for any kind of value.
pub open spec fn truncated<T>() -> Decoded<T> {
    Err(NbtError::UnexpectedEof)
}

/// A text cut short is read as a truncated input.
pub proof fn lemma_text_truncated(s: Seq<char>, k: int)
    requires
        utf8_bytes(s).len() <= max_len16(),
        0 <= k < encode_text(s).len(),
    ensures
        decode_text(encode_text(s).take(k)) == truncated::<Seq<char>>(),
{
    let e = utf8_bytes(s);
    if k >= 2 {
        lemma_take_of_joined(be16(e.len() as int), e, k);
        lemma_be16_val(e.len() as int, e.take(k - 2));
    }
}

/// A byte array cut short is read as a truncated input.
pub proof fn lemma_byte_array_truncated(v: Seq<u8>, k: int)
    requires
        v.len() <= max_len32(),
        0 <= k < (len32(v.len()) + v).len(),
    ensures
        decode_byte_array((len32(v.len()) + v).take(k)) == truncated::<Seq<u8>>(),
{
    lemma_count_round_trip(v.len(), Seq::empty());
    if k >= 4 {
        lemma_take_of_joined(len32(v.len()), v, k);
        lemma_count_round_trip(v.len(), v.take(k - 4));
        lemma_after_joined(len32(v.len()), v.take(k - 4));
    }
}

/// An int array cut short is read as a truncated input.
pub proof fn lemma_int_array_truncated(v: Seq<i32>, k: int)
    requires
        v.len() <= max_len32(),
        0 <= k < (len32(v.len()) + encode_ints(v)).len(),
    ensures
        decode_int_array((len32(v.len()) + encode_ints(v)).take(k)) == truncated::<Seq<i32>>(),
{
    lemma_count_round_trip(v.len(), Seq::empty());
    lemma_ints_skip(v, Seq::empty(), 0);
    if k >= 4 {
        lemma_take_of_joined(len32(v.len()), encode_ints(v), k);
        lemma_count_round_trip(v.len(), encode_ints(v).take(k - 4));
        lemma_after_joined(len32(v.len()), encode_ints(v).take(k - 4));
    }
}

/// A long array cut short is read as a truncated input.
pub proof fn lemma_long_array_truncated(v: Seq<i64>, k: int)
    requires
        v.len() <= max_len32(),
        0 <= k < (len32(v.len()) + encode_longs(v)).len(),
    ensures
        decode_long_array((len32(v.len()) + encode_longs(v)).take(k)) == truncated::<Seq<i64>>(),
{
    lemma_count_round_trip(v.len(), Seq::empty());
    lemma_longs_skip(v, Seq::empty(), 0);
    if k >= 4 {
        lemma_take_of_joined(len32(v.len()), encode_longs(v), k);
        lemma_count_round_trip(v.len(), encode_longs(v).take(k - 4));
        lemma_after_joined(len32(v.len()), encode_longs(v).take(k - 4));
    }
}

/// A fixed-width number cut short is read as a truncated input.
proof fn lemma_number_truncated(p: Payload, name: Option<Seq<char>>, k: int)
    requires
        p is Byte || p is Short || p is Int || p is Long || p is Float || p is Double,
        0 <= k < encode_payload(p).len(),
    ensures
        decode_payload(p.id(), name, encode_payload(p).take(k)) == truncated::<TagView>(),
{
    match p {
        Payload::Long(v) => {
            lemma_i64_round_trip(v, Seq::empty());
        },
        Payload::Double(v) => {
            lemma_u64_round_trip(v, Seq::empty());
        },
        _ => {},
    }
}

/// A well-formed list cut short is read as a truncated input.
proof fn lemma_list_truncated(
    element_id: u8,
    elements: Seq<TagView>,
    name: Option<Seq<char>>,
    k: int,
)
    requires
        well_formed_payload(Payload::List { element_id, elements }),
        0 <= k < encode_payload(Payload::List { element_id, elements }).len(),
    ensures
        decode_payload(9, name, encode_payload(Payload::List { element_id, elements }).take(k))
            == truncated::<TagView>(),
    decreases elements, 1nat,
{
    let n = elements.len();
    let count = len32(n);
    let body = encode_elements(elements);
    lemma_count_round_trip(n, Seq::empty());
    if k >= 5 {
        let on = body.take(k - 5);
        lemma_take_of_joined(seq![element_id] + count, body, k);
        lemma_joined3(seq![element_id], count, on);
        lemma_head(element_id, count + on);
        lemma_count_round_trip(n, on);
        lemma_after_joined(count, on);
        lemma_elements_truncated(element_id, Seq::empty(), elements, k - 5);
    } else if k >= 1 {
        lemma_joined3(seq![element_id], count, body);
        lemma_take_of_joined(seq![element_id], count + body, k);
        lemma_head(element_id, (count + body).take(k - 1));
        lemma_take_of_joined(count, body, k - 1);
    }
}

/// A well-formed payload cut short is read as a truncated input.
pub proof fn lemma_payload_truncated(p: Payload, name: Option<Seq<char>>, k: int)
    requires
        well_formed_payload(p),
        0 <= k < encode_payload(p).len(),
    ensures
        decode_payload(p.id(), name, encode_payload(p).take(k)) == truncated::<TagView>(),
    decreases p, 0nat,
{
    match p {
        Payload::End => {},
        Payload::ByteArray(v) => {
            lemma_byte_array_truncated(v, k);
        },
        Payload::String(s) => {
            lemma_text_truncated(s, k);
        },
        Payload::List { element_id, elements } => {
            lemma_list_truncated(element_id, elements, name, k);
        },
        Payload::Compound(members) => {
            lemma_take_of_joined(encode_members(members), seq![0u8], k);
            lemma_members_truncated(Seq::empty(), members, k);
        },
        Payload::IntArray(v) => {
            lemma_int_array_truncated(v, k);
        },
        Payload::LongArray(v) => {
            lemma_long_array_truncated(v, k);
        },
        _ => {
            lemma_number_truncated(p, name, k);
        },
    }
}

/// The elements of a list cut short are read as a truncated input.
pub proof fn lemma_elements_truncated(id: u8, done: Seq<TagView>, elements: Seq<TagView>, k: int)
    requires
        list_elements(id, elements),
        0 <= k < encode_elements(elements).len(),
    ensures
        decode_elements(id, elements.len(), done, encode_elements(elements).take(k)) == truncated::<
            Seq<TagView>,
        >(),
    decreases elements, 0nat,
{
    let first = elements[0];
    let tail = elements.skip(1);
    let head = encode_payload(first.payload);
    let b = encode_elements(elements).take(k);
    lemma_list_elements_split(id, elements);
    lemma_take_of_joined(head, encode_elements(tail), k);
    if k < head.len() {
        lemma_payload_truncated(first.payload, None, k);
        lemma_element_fails(id, elements.len(), done, b, NbtError::UnexpectedEof);
    } else {
        let on = encode_elements(tail).take(k - head.len());
        lemma_payload_round_trip(first.payload, None, on);
        lemma_after_joined(head, on);
        lemma_element_step(id, elements.len(), done, b, first, head.len(), on);
        lemma_elements_truncated(id, done.push(first), tail, k - head.len());
    }
}

/// The members of a compound cut short, be it only by the closing zero byte,
/// are read as a truncated input.
pub proof fn lemma_members_truncated(done: Members, members: Members, k: int)
    requires
        compound_members(members),
        0 <= k <= encode_members(members).len(),
    ensures
        decode_members(done, encode_members(members).take(k)) == truncated::<Members>(),
    decreases members, 0nat,
{
    if members.len() > 0 {
        let key = members[0].0;
        let tag = members[0].1;
        let tail = members.skip(1);
        let head = encode_member(key, tag.payload);
        lemma_compound_members_split(members);
        lemma_take_of_joined(head, encode_members(tail), k);
        if k < head.len() {
            lemma_member_truncated(done, key, tag, k);
        } else {
            let on = encode_members(tail).take(k - head.len());
            lemma_member_read(done, key, tag, on);
            lemma_members_truncated(with_member(done, key, tag), tail, k - head.len());
        }
    }
}

/// One member of a compound cut short is read as a truncated input.
proof fn lemma_member_truncated(done: Members, key: Seq<char>, tag: TagView, k: int)
    requires
        tag.name == Some(key),
        utf8_bytes(key).len() <= max_len16(),
        well_formed_payload(tag.payload),
        0 <= k < encode_member(key, tag.payload).len(),
    ensures
        decode_members(done, encode_member(key, tag.payload).take(k)) == truncated::<Members>(),
    decreases tag.payload, 1nat,
{
    let id = tag.payload.id();
    let text = encode_text(key);
    let body = encode_payload(tag.payload);
    let b = encode_member(key, tag.payload).take(k);
    if k >= 1 {
        lemma_joined3(seq![id], text, body);
        lemma_take_of_joined(seq![id], text + body, k);
        lemma_head(id, (text + body).take(k - 1));
        lemma_take_of_joined(text, body, k - 1);
        if k - 1 < text.len() {
            lemma_text_truncated(key, k - 1);
            lemma_member_fails_at_key(done, b, NbtError::UnexpectedEof);
        } else {
            let on = body.take(k - 1 - text.len());
            lemma_text_round_trip(key, on);
            lemma_after_joined(text, on);
            lemma_payload_truncated(tag.payload, Some(key), k - 1 - text.len());
            lemma_member_fails_at_payload(done, b, key, text.len(), NbtError::UnexpectedEof);
        }
    }
}

/// Truncated input: a well-formed tag whose encoding is cut short anywhere is
/// read as a truncated input, never as a tag.
pub proof fn lemma_truncated(t: TagView, k: int)
    requires
        well_formed(t),
        0 <= k < encode_tag(t).len(),
    ensures
        decode_tag(encode_tag(t).take(k)) == truncated::<TagView>(),
{
    let b = encode_tag(t).take(k);
    if t != TagView::end() && k >= 1 {
        let name = t.name->0;
        let id = t.payload.id();
        let text = encode_text(name);
        let body = encode_payload(t.payload);
        lemma_joined3(seq![id], text, body);
        lemma_take_of_joined(seq![id], text + body, k);
        lemma_head(id, (text + body).take(k - 1));
        lemma_take_of_joined(text, body, k - 1);
        if k - 1 < text.len() {
            lemma_text_truncated(name, k - 1);
            lemma_tag_fails_at_name(b, NbtError::UnexpectedEof);
        } else {
            let on = body.take(k - 1 - text.len());
            lemma_text_round_trip(name, on);
            lemma_after_joined(text, on);
            lemma_payload_truncated(t.payload, Some(name), k - 1 - text.len());
            lemma_tag_step(b, name, text.len());
        }
    }
}

/// Members without the closing zero byte are read as a truncated input,
/// whatever was read before them.
pub proof fn lemma_members_unterminated(done: Members, members: Members)
    requires
        compound_members(members),
    ensures
        decode_members(done, encode_members(members)) == truncated::<Members>(),
{
    lemma_members_truncated(done, members, encode_members(members).len() as int);
    assert(encode_members(members).take(encode_members(members).len() as int)
        =~= encode_members(members));
}

/// Missing terminator: the kind of a compound, its name and any members,
/// with the input ending before the closing zero byte, are read as a
/// truncated input and not as a compound.
pub proof fn lemma_missing_terminator(name: Seq<char>, members: Members)
    requires
        utf8_bytes(name).len() <= max_len16(),
        compound_members(members),
    ensures
        decode_tag(seq![10u8] + encode_text(name) + encode_members(members)) == truncated::<
            TagView,
        >(),
{
    let text = encode_text(name);
    let body = encode_members(members);
    lemma_joined3(seq![10u8], text, body);
    lemma_head(10u8, text + body);
    lemma_text_round_trip(name, body);
    lemma_after_joined(text, body);
    lemma_members_unterminated(Seq::empty(), members);
    lemma_tag_step(seq![10u8] + text + body, name, text.len());
}

/// Unknown kind: a byte that is none of the twelve kinds of payload is never
/// read as one.
pub proof fn lemma_unknown_payload_kind(id: u8, name: Option<Seq<char>>, b: Seq<u8>)
    requires
        id == 0 || id > 12,
    ensures
        decode_payload(id, name, b) == Err::<(TagView, nat), _>(NbtError::UnknownTagId(id)),
{
}

/// Unknown kind: an input that starts with a byte above twelve is never read
/// as a tag. Where its name can be read, the failure is the unknown kind, an
/// invalid-data failure; else it is the failure of the name.
pub proof fn lemma_unknown_kind(b: Seq<u8>)
    requires
        b.len() >= 1,
        b[0] > 12,
    ensures
        decode_tag(b) is Err,
        decode_text(after(b, 1)) is Ok ==> decode_tag(b) == Err::<(TagView, nat), _>(
            NbtError::UnknownTagId(b[0]),
        ),
        decode_text(after(b, 1)) is Err ==> decode_tag(b) == Err::<(TagView, nat), _>(
            decode_text(after(b, 1))->Err_0,
        ),
{
    match decode_text(after(b, 1)) {
        Ok((name, k)) => {
            lemma_unknown_payload_kind(b[0], Some(name), after(after(b, 1), k));
            lemma_tag_step(b, name, k);
        },
        Err(e) => {
            lemma_tag_fails_at_name(b, e);
        },
    }
}

} // verus!
