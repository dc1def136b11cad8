//! Round-trip identity: what was written is read back as it was.

use vstd::prelude::*;

use crate::entries::{distinct_keys, lemma_key_index_is, with_member, Members};
use crate::equality::{distinct_throughout, lemma_same_tree_reflexive, same_tree};
use crate::error::NbtError;
use crate::format::{
    after, decode_byte_array, decode_count, decode_elements, decode_i16, decode_i32, decode_i64,
    decode_i8, decode_int_array, decode_ints, decode_long_array, decode_longs, decode_members,
    decode_payload, decode_tag, decode_text, decode_u32, decode_u64, encode_elements, encode_ints,
    encode_longs, encode_member, encode_members, encode_payload, encode_tag, encode_text, later,
    lemma_element_step, lemma_member_step, len32, max_len16, max_len32, well_formed,
    well_formed_payload,
};
use crate::laws::joined::{
    lemma_after_joined, lemma_first_moved, lemma_head, lemma_joined3, lemma_joined_empty,
    lemma_middle,
};
use crate::tag::{Payload, TagView};
use crate::text::{lemma_text_of_bytes, utf8_bytes};
use crate::wire::{
    be16, i16_bytes, i32_at, i32_bytes, i64_at, i64_bytes, i8_bytes, lemma_be16_val,
    lemma_be32_val, lemma_be64_val, u32_bytes, u64_bytes, unsigned,
};

verus! {

/// A signed byte is read back from its byte, whatever follows.
pub proof fn lemma_i8_round_trip(v: i8, rest: Seq<u8>)
    ensures
        i8_bytes(v).len() == 1,
        decode_i8(i8_bytes(v) + rest) == Ok::<_, NbtError>((v, 1nat)),
{
}

/// A 16-bit number is read back from its bytes, whatever follows.
pub proof fn lemma_i16_round_trip(v: i16, rest: Seq<u8>)
    ensures
        i16_bytes(v).len() == 2,
        decode_i16(i16_bytes(v) + rest) == Ok::<_, NbtError>((v, 2nat)),
{
    lemma_be16_val(unsigned(v as int, 0x1_0000), rest);
}

/// A 32-bit number is read back from its bytes, whatever follows.
pub proof fn lemma_i32_round_trip(v: i32, rest: Seq<u8>)
    ensures
        i32_bytes(v).len() == 4,
        decode_i32(i32_bytes(v) + rest) == Ok::<_, NbtError>((v, 4nat)),
{
    lemma_be32_val(unsigned(v as int, 0x1_0000_0000), rest);
}

/// A 64-bit number is read back from its bytes, whatever follows.
pub proof fn lemma_i64_round_trip(v: i64, rest: Seq<u8>)
    ensures
        i64_bytes(v).len() == 8,
        decode_i64(i64_bytes(v) + rest) == Ok::<_, NbtError>((v, 8nat)),
{
    lemma_be64_val(unsigned(v as int, 0x1_0000_0000_0000_0000), rest);
}

/// The bits of a float are read back from their bytes, whatever follows.
pub proof fn lemma_u32_round_trip(v: u32, rest: Seq<u8>)
    ensures
        u32_bytes(v).len() == 4,
        decode_u32(u32_bytes(v) + rest) == Ok::<_, NbtError>((v, 4nat)),
{
    lemma_be32_val(v as int, rest);
}

/// The bits of a double are read back from their bytes, whatever follows.
pub proof fn lemma_u64_round_trip(v: u64, rest: Seq<u8>)
    ensures
        u64_bytes(v).len() == 8,
        decode_u64(u64_bytes(v) + rest) == Ok::<_, NbtError>((v, 8nat)),
{
    lemma_be64_val(v as int, rest);
}

/// A count that fits its 32-bit prefix is read back from it.
pub proof fn lemma_count_round_trip(n: nat, rest: Seq<u8>)
    requires
        n <= max_len32(),
    ensures
        len32(n).len() == 4,
        decode_count(len32(n) + rest) == Ok::<_, NbtError>((n, 4nat)),
{
    lemma_be32_val(n as int, rest);
}

/// A text whose bytes fit the 16-bit prefix is read back from its encoding,
/// whatever follows.
pub proof fn lemma_text_round_trip(s: Seq<char>, rest: Seq<u8>)
    requires
        utf8_bytes(s).len() <= max_len16(),
    ensures
        encode_text(s).len() == 2 + utf8_bytes(s).len(),
        decode_text(encode_text(s) + rest) == Ok::<_, NbtError>((s, encode_text(s).len())),
{
    let e = utf8_bytes(s);
    let n = e.len() as int;
    lemma_joined3(be16(n), e, rest);
    lemma_be16_val(n, e + rest);
    lemma_middle(be16(n), e, rest);
    lemma_text_of_bytes(s);
}

/// The encoding of an int array from its `i`-th element on is what follows
/// the first `4 * i` bytes.
pub proof fn lemma_ints_skip(v: Seq<i32>, rest: Seq<u8>, i: int)
    requires
        0 <= i <= v.len(),
    ensures
        encode_ints(v).len() == 4 * v.len(),
        (encode_ints(v) + rest).skip(4 * i) == encode_ints(v.skip(i)) + rest,
    decreases v.len(),
{
    if v.len() == 0 {
        assert(v.skip(i) =~= v);
        assert((encode_ints(v) + rest).skip(4 * i) =~= encode_ints(v.skip(i)) + rest);
    } else {
        lemma_ints_skip(v.skip(1), rest, if i == 0 { 0 } else { i - 1 });
        if i == 0 {
            assert(v.skip(0) =~= v);
            assert((encode_ints(v) + rest).skip(0) =~= encode_ints(v) + rest);
        } else {
            assert(v.skip(1).skip(i - 1) =~= v.skip(i));
            assert((encode_ints(v) + rest).skip(4 * i) =~= (encode_ints(v.skip(1)) + rest).skip(
                4 * (i - 1),
            ));
        }
    }
}

/// As `lemma_ints_skip`, for longs.
pub proof fn lemma_longs_skip(v: Seq<i64>, rest: Seq<u8>, i: int)
    requires
        0 <= i <= v.len(),
    ensures
        encode_longs(v).len() == 8 * v.len(),
        (encode_longs(v) + rest).skip(8 * i) == encode_longs(v.skip(i)) + rest,
    decreases v.len(),
{
    if v.len() == 0 {
        assert(v.skip(i) =~= v);
        assert((encode_longs(v) + rest).skip(8 * i) =~= encode_longs(v.skip(i)) + rest);
    } else {
        lemma_longs_skip(v.skip(1), rest, if i == 0 { 0 } else { i - 1 });
        lemma_i64_round_trip(v[0], encode_longs(v.skip(1)) + rest);
        if i == 0 {
            assert(v.skip(0) =~= v);
            assert((encode_longs(v) + rest).skip(0) =~= encode_longs(v) + rest);
        } else {
            assert(v.skip(1).skip(i - 1) =~= v.skip(i));
            assert((encode_longs(v) + rest).skip(8 * i) =~= (encode_longs(v.skip(1)) + rest).skip(
                8 * (i - 1),
            ));
        }
    }
}

/// The elements of an int array are read back from their bytes.
pub proof fn lemma_ints_round_trip(v: Seq<i32>, rest: Seq<u8>)
    ensures
        encode_ints(v).len() == 4 * v.len(),
        decode_ints(encode_ints(v) + rest, v.len()) == Ok::<_, NbtError>((v, 4 * v.len())),
{
    let b = encode_ints(v) + rest;
    lemma_ints_skip(v, rest, 0);
    assert forall|i: int| 0 <= i < v.len() implies i32_at(#[trigger] b.skip(4 * i)) == v[i] by {
        lemma_ints_skip(v, rest, i);
        let tail = v.skip(i);
        lemma_i32_round_trip(tail[0], encode_ints(tail.skip(1)) + rest);
        lemma_joined3(i32_bytes(tail[0]), encode_ints(tail.skip(1)), rest);
    }
    assert(Seq::new(v.len(), |i: int| i32_at(b.skip(4 * i))) =~= v);
}

/// The elements of a long array are read back from their bytes.
pub proof fn lemma_longs_round_trip(v: Seq<i64>, rest: Seq<u8>)
    ensures
        encode_longs(v).len() == 8 * v.len(),
        decode_longs(encode_longs(v) + rest, v.len()) == Ok::<_, NbtError>((v, 8 * v.len())),
{
    let b = encode_longs(v) + rest;
    lemma_longs_skip(v, rest, 0);
    assert forall|i: int| 0 <= i < v.len() implies i64_at(#[trigger] b.skip(8 * i)) == v[i] by {
        lemma_longs_skip(v, rest, i);
        let tail = v.skip(i);
        lemma_i64_round_trip(tail[0], encode_longs(tail.skip(1)) + rest);
        lemma_joined3(i64_bytes(tail[0]), encode_longs(tail.skip(1)), rest);
    }
    assert(Seq::new(v.len(), |i: int| i64_at(b.skip(8 * i))) =~= v);
}

/// A byte array whose length fits the prefix is read back.
pub proof fn lemma_byte_array_round_trip(v: Seq<u8>, rest: Seq<u8>)
    requires
        v.len() <= max_len32(),
    ensures
        decode_byte_array(len32(v.len()) + v + rest) == Ok::<_, NbtError>(
            (v, (len32(v.len()) + v).len()),
        ),
{
    lemma_joined3(len32(v.len()), v, rest);
    lemma_count_round_trip(v.len(), v + rest);
    lemma_after_joined(len32(v.len()), v + rest);
    assert((v + rest).take(v.len() as int) =~= v);
}

/// An int array whose length fits the prefix is read back.
pub proof fn lemma_int_array_round_trip(v: Seq<i32>, rest: Seq<u8>)
    requires
        v.len() <= max_len32(),
    ensures
        decode_int_array(len32(v.len()) + encode_ints(v) + rest) == Ok::<_, NbtError>(
            (v, (len32(v.len()) + encode_ints(v)).len()),
        ),
{
    lemma_joined3(len32(v.len()), encode_ints(v), rest);
    lemma_count_round_trip(v.len(), encode_ints(v) + rest);
    lemma_after_joined(len32(v.len()), encode_ints(v) + rest);
    lemma_ints_round_trip(v, rest);
}

/// A long array whose length fits the prefix is read back.
pub proof fn lemma_long_array_round_trip(v: Seq<i64>, rest: Seq<u8>)
    requires
        v.len() <= max_len32(),
    ensures
        decode_long_array(len32(v.len()) + encode_longs(v) + rest) == Ok::<_, NbtError>(
            (v, (len32(v.len()) + encode_longs(v)).len()),
        ),
{
    lemma_joined3(len32(v.len()), encode_longs(v), rest);
    lemma_count_round_trip(v.len(), encode_longs(v) + rest);
    lemma_after_joined(len32(v.len()), encode_longs(v) + rest);
    lemma_longs_round_trip(v, rest);
}

/// The elements of a list can be written and read back: none has a name,
/// each is of kind `id`, each payload is well formed.
pub open spec fn list_elements(id: u8, elements: Seq<TagView>) -> bool {
    forall|i: int|
        0 <= i < elements.len() ==> {
            &&& (#[trigger] elements[i]).name is None
            &&& elements[i].payload.id() == id
            &&& well_formed_payload(elements[i].payload)
        }
}

/// The members of a compound can be written and read back, but for the
/// distinctness of their keys: each tag is called by its key, the key fits
/// its prefix, and the payload is well formed.
pub open spec fn compound_members(members: Members) -> bool {
    forall|i: int|
        0 <= i < members.len() ==> {
            &&& (#[trigger] members[i]).1.name == Some(members[i].0)
            &&& utf8_bytes(members[i].0).len() <= max_len16()
            &&& well_formed_payload(members[i].1.payload)
        }
}

/// What holds of the elements of a list holds of the first and of the
/// others.
pub proof fn lemma_list_elements_split(id: u8, elements: Seq<TagView>)
    requires
        list_elements(id, elements),
        elements.len() > 0,
    ensures
        elements[0].name is None,
        elements[0].payload.id() == id,
        well_formed_payload(elements[0].payload),
        elements[0] == (TagView { name: None, payload: elements[0].payload }),
        list_elements(id, elements.skip(1)),
{
    let tail = elements.skip(1);
    assert forall|i: int| 0 <= i < tail.len() implies {
        &&& (#[trigger] tail[i]).name is None
        &&& tail[i].payload.id() == id
        &&& well_formed_payload(tail[i].payload)
    } by {
        assert(tail[i] == elements[i + 1]);
    }
}

/// What holds of the members of a compound holds of the first and of the
/// others.
pub proof fn lemma_compound_members_split(members: Members)
    requires
        compound_members(members),
        members.len() > 0,
    ensures
        members[0].1.name == Some(members[0].0),
        utf8_bytes(members[0].0).len() <= max_len16(),
        well_formed_payload(members[0].1.payload),
        members[0].1.payload.id() != 0,
        members[0].1 == (TagView { name: Some(members[0].0), payload: members[0].1.payload }),
        compound_members(members.skip(1)),
{
    let tail = members.skip(1);
    assert forall|i: int| 0 <= i < tail.len() implies {
        &&& (#[trigger] tail[i]).1.name == Some(tail[i].0)
        &&& utf8_bytes(tail[i].0).len() <= max_len16()
        &&& well_formed_payload(tail[i].1.payload)
    } by {
        assert(tail[i] == members[i + 1]);
    }
}

/// Among members with distinct keys, the key of one that follows others is
/// new to them: storing it puts it behind them.
pub proof fn lemma_new_key_goes_last(done: Members, members: Members)
    requires
        distinct_keys(done + members),
        members.len() > 0,
    ensures
        with_member(done, members[0].0, members[0].1) == done.push(members[0]),
        done.push(members[0]) + members.skip(1) == done + members,
{
    let all = done + members;
    let key = members[0].0;
    assert forall|j: int| 0 <= j < done.len() implies (#[trigger] done[j]).0 != key by {
        assert(all[j] == done[j]);
        assert(all[done.len() as int] == members[0]);
    }
    lemma_key_index_is(done, key, done.len() as int);
    lemma_first_moved(done, members);
}

/// A well-formed payload is read back from its encoding as the same payload,
/// under whatever name the reader gives it, and what follows the encoding is
/// left unread.
pub proof fn lemma_payload_round_trip(p: Payload, name: Option<Seq<char>>, rest: Seq<u8>)
    requires
        well_formed_payload(p),
    ensures
        decode_payload(p.id(), name, encode_payload(p) + rest) == Ok::<_, NbtError>(
            (TagView { name, payload: p }, encode_payload(p).len()),
        ),
    decreases p, 0nat,
{
    match p {
        Payload::End => {},
        Payload::Byte(v) => {
            lemma_i8_round_trip(v, rest);
        },
        Payload::Short(v) => {
            lemma_i16_round_trip(v, rest);
        },
        Payload::Int(v) => {
            lemma_i32_round_trip(v, rest);
        },
        Payload::Long(v) => {
            lemma_i64_round_trip(v, rest);
        },
        Payload::Float(v) => {
            lemma_u32_round_trip(v, rest);
        },
        Payload::Double(v) => {
            lemma_u64_round_trip(v, rest);
        },
        Payload::ByteArray(v) => {
            lemma_byte_array_round_trip(v, rest);
        },
        Payload::String(s) => {
            lemma_text_round_trip(s, rest);
        },
        Payload::List { element_id, elements } => {
            lemma_list_round_trip(element_id, elements, name, rest);
        },
        Payload::Compound(members) => {
            lemma_compound_round_trip(members, name, rest);
        },
        Payload::IntArray(v) => {
            lemma_int_array_round_trip(v, rest);
        },
        Payload::LongArray(v) => {
            lemma_long_array_round_trip(v, rest);
        },
    }
}

/// A well-formed list is read back from its encoding.
proof fn lemma_list_round_trip(
    element_id: u8,
    elements: Seq<TagView>,
    name: Option<Seq<char>>,
    rest: Seq<u8>,
)
    requires
        well_formed_payload(Payload::List { element_id, elements }),
    ensures
        decode_payload(
            9,
            name,
            encode_payload(Payload::List { element_id, elements }) + rest,
        ) == Ok::<_, NbtError>(
            (
                TagView { name, payload: Payload::List { element_id, elements } },
                encode_payload(Payload::List { element_id, elements }).len(),
            ),
        ),
    decreases elements, 1nat,
{
    let n = elements.len();
    let count = len32(n);
    let body = encode_elements(elements);
    lemma_joined3(seq![element_id] + count, body, rest);
    lemma_joined3(seq![element_id], count, body + rest);
    lemma_head(element_id, count + (body + rest));
    lemma_count_round_trip(n, body + rest);
    lemma_after_joined(count, body + rest);
    lemma_elements_round_trip(element_id, Seq::empty(), elements, rest);
    lemma_joined_empty(elements);
}

/// A well-formed compound is read back from its encoding.
proof fn lemma_compound_round_trip(members: Members, name: Option<Seq<char>>, rest: Seq<u8>)
    requires
        well_formed_payload(Payload::Compound(members)),
    ensures
        decode_payload(10, name, encode_payload(Payload::Compound(members)) + rest) == Ok::<
            _,
            NbtError,
        >(
            (
                TagView { name, payload: Payload::Compound(members) },
                encode_payload(Payload::Compound(members)).len(),
            ),
        ),
    decreases members, 1nat,
{
    lemma_joined3(encode_members(members), seq![0u8], rest);
    lemma_joined_empty(members);
    lemma_members_round_trip(Seq::empty(), members, rest);
}

/// The elements of a list are read back from their encoding, after those
/// that were read before.
pub proof fn lemma_elements_round_trip(
    id: u8,
    done: Seq<TagView>,
    elements: Seq<TagView>,
    rest: Seq<u8>,
)
    requires
        list_elements(id, elements),
    ensures
        decode_elements(id, elements.len(), done, encode_elements(elements) + rest) == Ok::<
            _,
            NbtError,
        >((done + elements, encode_elements(elements).len())),
    decreases elements, 0nat,
{
    if elements.len() == 0 {
        lemma_joined_empty(done);
    } else {
        let first = elements[0];
        let tail = elements.skip(1);
        let head = encode_payload(first.payload);
        let on = encode_elements(tail) + rest;
        lemma_list_elements_split(id, elements);
        lemma_joined3(head, encode_elements(tail), rest);
        lemma_payload_round_trip(first.payload, None, on);
        lemma_after_joined(head, on);
        lemma_element_step(
            id,
            elements.len(),
            done,
            encode_elements(elements) + rest,
            first,
            head.len(),
            on,
        );
        lemma_elements_round_trip(id, done.push(first), tail, rest);
        lemma_first_moved(done, elements);
    }
}

/// A member that can be written is read back from its encoding and stored,
/// and the reading goes on with what follows.
pub proof fn lemma_member_read(done: Members, key: Seq<char>, tag: TagView, on: Seq<u8>)
    requires
        tag.name == Some(key),
        utf8_bytes(key).len() <= max_len16(),
        well_formed_payload(tag.payload),
    ensures
        decode_members(done, encode_member(key, tag.payload) + on) == later(
            encode_member(key, tag.payload).len(),
            decode_members(with_member(done, key, tag), on),
        ),
    decreases tag.payload, 1nat,
{
    let id = tag.payload.id();
    let text = encode_text(key);
    let body = encode_payload(tag.payload);
    lemma_joined3(seq![id] + text, body, on);
    lemma_joined3(seq![id], text, body + on);
    lemma_head(id, text + (body + on));
    lemma_text_round_trip(key, body + on);
    lemma_after_joined(text, body + on);
    lemma_payload_round_trip(tag.payload, Some(key), on);
    lemma_after_joined(body, on);
    lemma_member_step(
        done,
        encode_member(key, tag.payload) + on,
        key,
        text.len(),
        tag,
        body.len(),
        on,
    );
}

/// The members of a compound are read back from their encoding and the
/// closing zero byte, after those that were read before, if no key among
/// them all stands twice.
pub proof fn lemma_members_round_trip(done: Members, members: Members, rest: Seq<u8>)
    requires
        compound_members(members),
        distinct_keys(done + members),
    ensures
        decode_members(done, encode_members(members) + (seq![0u8] + rest)) == Ok::<_, NbtError>(
            (done + members, encode_members(members).len() + 1),
        ),
    decreases members, 0nat,
{
    if members.len() == 0 {
        lemma_joined_empty(done);
        lemma_joined_empty(seq![0u8] + rest);
        lemma_head(0u8, rest);
    } else {
        let key = members[0].0;
        let tag = members[0].1;
        let tail = members.skip(1);
        let head = encode_member(key, tag.payload);
        let on = encode_members(tail) + (seq![0u8] + rest);
        lemma_compound_members_split(members);
        lemma_joined3(head, encode_members(tail), seq![0u8] + rest);
        lemma_member_read(done, key, tag, on);
        lemma_new_key_goes_last(done, members);
        lemma_members_round_trip(done.push(members[0]), tail, rest);
    }
}

/// Round-trip identity: a well-formed tag is read back from its encoding as
/// the same tag, and what follows the encoding is left unread.
pub proof fn lemma_round_trip(t: TagView, rest: Seq<u8>)
    requires
        well_formed(t),
    ensures
        decode_tag(encode_tag(t) + rest) == Ok::<_, NbtError>((t, encode_tag(t).len())),
{
    if t == TagView::end() {
        lemma_head(0u8, rest);
    } else {
        let name = t.name->0;
        let id = t.payload.id();
        let text = encode_text(name);
        let body = encode_payload(t.payload);
        lemma_joined3(seq![id] + text, body, rest);
        lemma_joined3(seq![id], text, body + rest);
        lemma_head(id, text + (body + rest));
        lemma_text_round_trip(name, body + rest);
        lemma_after_joined(text, body + rest);
        lemma_payload_round_trip(t.payload, Some(name), rest);
    }
}

/// In a well-formed payload no key stands twice in a compound, at whatever
/// depth.
pub proof fn lemma_well_formed_distinct(p: Payload)
    requires
        well_formed_payload(p),
    ensures
        distinct_throughout(p),
    decreases p,
{
    match p {
        Payload::List { element_id, elements } => {
            assert forall|i: int| 0 <= i < elements.len() implies distinct_throughout(
                (#[trigger] elements[i]).payload,
            ) by {
                lemma_well_formed_distinct(elements[i].payload);
            }
        },
        Payload::Compound(members) => {
            assert forall|i: int| 0 <= i < members.len() implies distinct_throughout(
                (#[trigger] members[i]).1.payload,
            ) by {
                lemma_well_formed_distinct(members[i].1.payload);
            }
        },
        _ => {},
    }
}

/// Round-trip identity, in terms of `==`: what a well-formed tag is read back
/// as from its encoding is the same tag.
pub proof fn lemma_round_trip_same(t: TagView, rest: Seq<u8>)
    requires
        well_formed(t),
    ensures
        decode_tag(encode_tag(t) + rest) is Ok,
        same_tree(decode_tag(encode_tag(t) + rest)->Ok_0.0, t),
{
    lemma_round_trip(t, rest);
    if t != TagView::end() {
        lemma_well_formed_distinct(t.payload);
    }
    lemma_same_tree_reflexive(t);
}

} // verus!
