//! The wire format, as mathematics: which bytes a tag is written as, and which
//! tag, if any, a sequence of bytes is read as.
//!
//! A decoding function takes the bytes that are still to be read and answers
//! with the value and the number of bytes that it took, or with the failure.

use vstd::prelude::*;

use crate::entries::{distinct_keys, with_member, Members};
use crate::error::NbtError;
use crate::tag::{Payload, TagView};
use crate::text::{is_utf8, utf8_bytes, utf8_text};
use crate::wire::{
    be16, be32, i16_at, i16_bytes, i32_at, i32_bytes, i64_at, i64_bytes, i8_at, i8_bytes, u32_at,
    u32_bytes, u64_at, u64_bytes,
};

verus! {

/// The outcome of decoding: the value and the number of bytes taken, or the
/// failure.
pub type Decoded<T> = Result<(T, nat), NbtError>;

/// The largest count that a 16-bit length prefix can announce.
pub open spec fn max_len16() -> nat {
    0x7fff
}

/// The largest count that a 32-bit length prefix can announce.
pub open spec fn max_len32() -> nat {
    0x7fff_ffff
}

/// What is left of `b` after its first `n` bytes; nothing, if it has fewer.
pub open spec fn after(b: Seq<u8>, n: nat) -> Seq<u8> {
    if n <= b.len() {
        b.skip(n as int)
    } else {
        Seq::empty()
    }
}

/// Passing over bytes twice is passing over as many at once.
pub proof fn lemma_after_after(b: Seq<u8>, m: nat, n: nat)
    ensures
        after(after(b, m), n) == after(b, m + n),
{
    assert(after(after(b, m), n) =~= after(b, m + n));
}

/// `r`, counted from `n` bytes further back.
pub open spec fn later<T>(n: nat, r: Decoded<T>) -> Decoded<T> {
    match r {
        Ok((v, k)) => Ok((v, n + k)),
        Err(e) => Err(e),
    }
}

/// Counting from further back twice is counting from the sum.
pub proof fn lemma_later_later<T>(m: nat, n: nat, r: Decoded<T>)
    ensures
        later(m, later(n, r)) == later(m + n, r),
        later(0, r) == r,
{
}

// ---------------------------------------------------------------------------
// Writing
// ---------------------------------------------------------------------------
/// A 16-bit length prefix: the low sixteen bits of the length.
pub open spec fn len16(n: nat) -> Seq<u8> {
    be16(n as int % 0x1_0000)
}

/// A 32-bit length prefix: the low thirty-two bits of the length.
pub open spec fn len32(n: nat) -> Seq<u8> {
    be32(n as int % 0x1_0000_0000)
}

/// A name or a string payload: the number of its UTF-8 bytes, then the bytes.
pub open spec fn encode_text(s: Seq<char>) -> Seq<u8> {
    len16(utf8_bytes(s).len()) + utf8_bytes(s)
}

/// The elements of an int array, four bytes each.
pub open spec fn encode_ints(v: Seq<i32>) -> Seq<u8>
    decreases v.len(),
{
    if v.len() == 0 {
        Seq::empty()
    } else {
        i32_bytes(v[0]) + encode_ints(v.skip(1))
    }
}

/// The elements of a long array, eight bytes each.
pub open spec fn encode_longs(v: Seq<i64>) -> Seq<u8>
    decreases v.len(),
{
    if v.len() == 0 {
        Seq::empty()
    } else {
        i64_bytes(v[0]) + encode_longs(v.skip(1))
    }
}

/// The payload of a tag. A list writes the payloads of its elements and none
/// of their names; a compound writes each member under its key and ends with
/// a zero byte.
pub open spec fn encode_payload(p: Payload) -> Seq<u8>
    decreases p, 0nat,
{
    match p {
        Payload::End => Seq::empty(),
        Payload::Byte(v) => i8_bytes(v),
        Payload::Short(v) => i16_bytes(v),
        Payload::Int(v) => i32_bytes(v),
        Payload::Long(v) => i64_bytes(v),
        Payload::Float(v) => u32_bytes(v),
        Payload::Double(v) => u64_bytes(v),
        Payload::ByteArray(v) => len32(v.len()) + v,
        Payload::String(s) => encode_text(s),
        Payload::List { element_id, elements } => seq![element_id] + len32(elements.len())
            + encode_elements(elements),
        Payload::Compound(members) => encode_members(members) + seq![0u8],
        Payload::IntArray(v) => len32(v.len()) + encode_ints(v),
        Payload::LongArray(v) => len32(v.len()) + encode_longs(v),
    }
}

/// The payloads of the elements of a list, one after the other.
pub open spec fn encode_elements(elements: Seq<TagView>) -> Seq<u8>
    decreases elements, 0nat,
{
    if elements.len() == 0 {
        Seq::empty()
    } else {
        encode_payload(elements[0].payload) + encode_elements(elements.skip(1))
    }
}

/// One member of a compound: the kind of its tag, its key, the tag's payload.
pub open spec fn encode_member(key: Seq<char>, p: Payload) -> Seq<u8>
    decreases p, 1nat,
{
    seq![p.id()] + encode_text(key) + encode_payload(p)
}

/// The members of a compound, one after the other, without the closing byte.
pub open spec fn encode_members(members: Members) -> Seq<u8>
    decreases members, 0nat,
{
    if members.len() == 0 {
        Seq::empty()
    } else {
        encode_member(members[0].0, members[0].1.payload) + encode_members(members.skip(1))
    }
}

/// The name under which a tag is written: its own, or the empty one.
pub open spec fn written_name(name: Option<Seq<char>>) -> Seq<char> {
    match name {
        Some(s) => s,
        None => Seq::empty(),
    }
}

/// A whole tag: the byte of its kind and, unless that is zero, its name and
/// its payload.
pub open spec fn encode_tag(t: TagView) -> Seq<u8> {
    if t.payload.id() == 0 {
        seq![0u8]
    } else {
        seq![t.payload.id()] + encode_text(written_name(t.name)) + encode_payload(t.payload)
    }
}

// ---------------------------------------------------------------------------
// Reading
// ---------------------------------------------------------------------------
/// One byte.
pub open spec fn decode_u8(b: Seq<u8>) -> Decoded<u8> {
    if b.len() < 1 {
        Err(NbtError::UnexpectedEof)
    } else {
        Ok((b[0], 1))
    }
}

/// One signed byte.
pub open spec fn decode_i8(b: Seq<u8>) -> Decoded<i8> {
    if b.len() < 1 {
        Err(NbtError::UnexpectedEof)
    } else {
        Ok((i8_at(b), 1))
    }
}

/// A signed 16-bit number, most significant byte first.
pub open spec fn decode_i16(b: Seq<u8>) -> Decoded<i16> {
    if b.len() < 2 {
        Err(NbtError::UnexpectedEof)
    } else {
        Ok((i16_at(b), 2))
    }
}

/// A signed 32-bit number, most significant byte first.
pub open spec fn decode_i32(b: Seq<u8>) -> Decoded<i32> {
    if b.len() < 4 {
        Err(NbtError::UnexpectedEof)
    } else {
        Ok((i32_at(b), 4))
    }
}

/// A signed 64-bit number, most significant byte first.
pub open spec fn decode_i64(b: Seq<u8>) -> Decoded<i64> {
    if b.len() < 8 {
        Err(NbtError::UnexpectedEof)
    } else {
        Ok((i64_at(b), 8))
    }
}

/// The thirty-two bits of a float, most significant byte first.
pub open spec fn decode_u32(b: Seq<u8>) -> Decoded<u32> {
    if b.len() < 4 {
        Err(NbtError::UnexpectedEof)
    } else {
        Ok((u32_at(b), 4))
    }
}

/// The sixty-four bits of a double, most significant byte first.
pub open spec fn decode_u64(b: Seq<u8>) -> Decoded<u64> {
    if b.len() < 8 {
        Err(NbtError::UnexpectedEof)
    } else {
        Ok((u64_at(b), 8))
    }
}

/// The `n` bytes that follow in `b`.
pub open spec fn decode_bytes(b: Seq<u8>, n: nat) -> Decoded<Seq<u8>> {
    if b.len() < n {
        Err(NbtError::UnexpectedEof)
    } else {
        Ok((b.take(n as int), n))
    }
}

/// A 32-bit count. A negative prefix announces more than any input holds, so
/// it fails as a truncated input does.
pub open spec fn decode_count(b: Seq<u8>) -> Decoded<nat> {
    if b.len() < 4 || i32_at(b) < 0 {
        Err(NbtError::UnexpectedEof)
    } else {
        Ok((i32_at(b) as nat, 4))
    }
}

/// A name or a string payload: a 16-bit count of bytes, then that many bytes,
/// which must be UTF-8. A negative count fails as a truncated input does.
pub open spec fn decode_text(b: Seq<u8>) -> Decoded<Seq<char>> {
    if b.len() < 2 || i16_at(b) < 0 || b.len() < 2 + i16_at(b) {
        Err(NbtError::UnexpectedEof)
    } else {
        let bytes = b.subrange(2, 2 + i16_at(b));
        if is_utf8(bytes) {
            Ok((utf8_text(bytes), (2 + i16_at(b)) as nat))
        } else {
            Err(NbtError::InvalidUtf8)
        }
    }
}

/// A byte array: a count, then that many bytes.
pub open spec fn decode_byte_array(b: Seq<u8>) -> Decoded<Seq<u8>> {
    match decode_count(b) {
        Ok((n, _)) => later(4, decode_bytes(after(b, 4), n)),
        Err(e) => Err(e),
    }
}

/// `n` ints of four bytes each.
pub open spec fn decode_ints(b: Seq<u8>, n: nat) -> Decoded<Seq<i32>> {
    if b.len() < 4 * n {
        Err(NbtError::UnexpectedEof)
    } else {
        Ok((Seq::new(n, |i: int| i32_at(b.skip(4 * i))), 4 * n))
    }
}

/// `n` longs of eight bytes each.
pub open spec fn decode_longs(b: Seq<u8>, n: nat) -> Decoded<Seq<i64>> {
    if b.len() < 8 * n {
        Err(NbtError::UnexpectedEof)
    } else {
        Ok((Seq::new(n, |i: int| i64_at(b.skip(8 * i))), 8 * n))
    }
}

/// An int array: a count, then that many ints.
pub open spec fn decode_int_array(b: Seq<u8>) -> Decoded<Seq<i32>> {
    match decode_count(b) {
        Ok((n, _)) => later(4, decode_ints(after(b, 4), n)),
        Err(e) => Err(e),
    }
}

/// A long array: a count, then that many longs.
pub open spec fn decode_long_array(b: Seq<u8>) -> Decoded<Seq<i64>> {
    match decode_count(b) {
        Ok((n, _)) => later(4, decode_longs(after(b, 4), n)),
        Err(e) => Err(e),
    }
}

/// `r` as the payload of a tag called `name`.
pub open spec fn named<T>(name: Option<Seq<char>>, r: Decoded<T>, wrap: spec_fn(T) -> Payload)
    -> Decoded<TagView> {
    match r {
        Ok((v, k)) => Ok((TagView { name, payload: wrap(v) }, k)),
        Err(e) => Err(e),
    }
}

/// The payload of a tag of kind `id`, which becomes a tag called `name`.
pub open spec fn decode_payload(id: u8, name: Option<Seq<char>>, b: Seq<u8>) -> Decoded<TagView>
    decreases b.len(), 1nat,
{
    if id == 1 {
        named(name, decode_i8(b), |v: i8| Payload::Byte(v))
    } else if id == 2 {
        named(name, decode_i16(b), |v: i16| Payload::Short(v))
    } else if id == 3 {
        named(name, decode_i32(b), |v: i32| Payload::Int(v))
    } else if id == 4 {
        named(name, decode_i64(b), |v: i64| Payload::Long(v))
    } else if id == 5 {
        named(name, decode_u32(b), |v: u32| Payload::Float(v))
    } else if id == 6 {
        named(name, decode_u64(b), |v: u64| Payload::Double(v))
    } else if id == 7 {
        named(name, decode_byte_array(b), |v: Seq<u8>| Payload::ByteArray(v))
    } else if id == 8 {
        named(name, decode_text(b), |v: Seq<char>| Payload::String(v))
    } else if id == 9 {
        if b.len() < 1 {
            Err(NbtError::UnexpectedEof)
        } else {
            match decode_count(after(b, 1)) {
                Ok((n, _)) => named(
                    name,
                    later(5, decode_elements(b[0], n, Seq::empty(), after(after(b, 1), 4))),
                    |v: Seq<TagView>| Payload::List { element_id: b[0], elements: v },
                ),
                Err(e) => Err(e),
            }
        }
    } else if id == 10 {
        named(name, decode_members(Seq::empty(), b), |v: Members| Payload::Compound(v))
    } else if id == 11 {
        named(name, decode_int_array(b), |v: Seq<i32>| Payload::IntArray(v))
    } else if id == 12 {
        named(name, decode_long_array(b), |v: Seq<i64>| Payload::LongArray(v))
    } else {
        Err(NbtError::UnknownTagId(id))
    }
}

/// `n` more elements of a list, each the payload of a tag of kind `id`
/// without a name, after the elements `done`.
pub open spec fn decode_elements(id: u8, n: nat, done: Seq<TagView>, b: Seq<u8>) -> Decoded<
    Seq<TagView>,
>
    decreases b.len(), n + 2,
{
    if n == 0 {
        Ok((done, 0))
    } else {
        match decode_payload(id, None, b) {
            Ok((t, k)) => later(k, decode_elements(id, (n - 1) as nat, done.push(t), after(b, k))),
            Err(e) => Err(e),
        }
    }
}

/// The members of a compound up to its closing zero byte, after the members
/// `done`. Each is a kind, a key and a payload, and is stored under its key:
/// of two members with one key the later one stays.
pub open spec fn decode_members(done: Members, b: Seq<u8>) -> Decoded<Members>
    decreases b.len(), 0nat,
{
    if b.len() < 1 {
        Err(NbtError::UnexpectedEof)
    } else if b[0] == 0 {
        Ok((done, 1))
    } else {
        match decode_text(after(b, 1)) {
            Ok((key, k1)) => match decode_payload(b[0], Some(key), after(after(b, 1), k1)) {
                Ok((t, k2)) => later(
                    1 + k1 + k2,
                    decode_members(with_member(done, key, t), after(after(after(b, 1), k1), k2)),
                ),
                Err(e) => Err(e),
            },
            Err(e) => Err(e),
        }
    }
}

/// A whole tag: a zero byte, which is the end marker, or the byte of a kind,
/// a name and the payload of that kind.
pub open spec fn decode_tag(b: Seq<u8>) -> Decoded<TagView> {
    if b.len() < 1 {
        Err(NbtError::UnexpectedEof)
    } else if b[0] == 0 {
        Ok((TagView::end(), 1))
    } else {
        match decode_text(after(b, 1)) {
            Ok((name, k)) => later(1 + k, decode_payload(b[0], Some(name), after(after(b, 1), k))),
            Err(e) => Err(e),
        }
    }
}

/// One step of reading elements: where the payload of the next element can
/// be read, the element is kept and the reading goes on behind it.
pub proof fn lemma_element_step(
    id: u8,
    n: nat,
    done: Seq<TagView>,
    b: Seq<u8>,
    t: TagView,
    k: nat,
    on: Seq<u8>,
)
    requires
        n > 0,
        decode_payload(id, None, b) == Ok::<_, NbtError>((t, k)),
        after(b, k) == on,
    ensures
        decode_elements(id, n, done, b) == later(
            k,
            decode_elements(id, (n - 1) as nat, done.push(t), on),
        ),
{
}

/// One step of reading members: where the key and the payload of the next
/// member can be read, the member is stored and the reading goes on behind
/// it.
pub proof fn lemma_member_step(
    done: Members,
    b: Seq<u8>,
    key: Seq<char>,
    k1: nat,
    t: TagView,
    k2: nat,
    on: Seq<u8>,
)
    requires
        b.len() >= 1,
        b[0] != 0,
        decode_text(after(b, 1)) == Ok::<_, NbtError>((key, k1)),
        decode_payload(b[0], Some(key), after(after(b, 1), k1)) == Ok::<_, NbtError>((t, k2)),
        after(after(after(b, 1), k1), k2) == on,
    ensures
        decode_members(done, b) == later(
            1 + k1 + k2,
            decode_members(with_member(done, key, t), on),
        ),
{
}

/// Where the payload of the next element cannot be read, the elements
/// cannot.
pub proof fn lemma_element_fails(id: u8, n: nat, done: Seq<TagView>, b: Seq<u8>, e: NbtError)
    requires
        n > 0,
        decode_payload(id, None, b) == Err::<(TagView, nat), _>(e),
    ensures
        decode_elements(id, n, done, b) == Err::<(Seq<TagView>, nat), _>(e),
{
}

/// Where the key of the next member cannot be read, the members cannot.
pub proof fn lemma_member_fails_at_key(done: Members, b: Seq<u8>, e: NbtError)
    requires
        b.len() >= 1,
        b[0] != 0,
        decode_text(after(b, 1)) == Err::<(Seq<char>, nat), _>(e),
    ensures
        decode_members(done, b) == Err::<(Members, nat), _>(e),
{
}

/// Where the payload of the next member cannot be read, the members cannot.
pub proof fn lemma_member_fails_at_payload(
    done: Members,
    b: Seq<u8>,
    key: Seq<char>,
    k1: nat,
    e: NbtError,
)
    requires
        b.len() >= 1,
        b[0] != 0,
        decode_text(after(b, 1)) == Ok::<_, NbtError>((key, k1)),
        decode_payload(b[0], Some(key), after(after(b, 1), k1)) == Err::<(TagView, nat), _>(e),
    ensures
        decode_members(done, b) == Err::<(Members, nat), _>(e),
{
}

/// Behind the byte of its kind and its name, a tag is read as its payload
/// is.
pub proof fn lemma_tag_step(b: Seq<u8>, name: Seq<char>, k: nat)
    requires
        b.len() >= 1,
        b[0] != 0,
        decode_text(after(b, 1)) == Ok::<_, NbtError>((name, k)),
    ensures
        decode_tag(b) == later(1 + k, decode_payload(b[0], Some(name), after(after(b, 1), k))),
{
}

/// Where the name of a tag cannot be read, the tag cannot.
pub proof fn lemma_tag_fails_at_name(b: Seq<u8>, e: NbtError)
    requires
        b.len() >= 1,
        b[0] != 0,
        decode_text(after(b, 1)) == Err::<(Seq<char>, nat), _>(e),
    ensures
        decode_tag(b) == Err::<(TagView, nat), _>(e),
{
}

// ---------------------------------------------------------------------------
// Well-formed trees
// ---------------------------------------------------------------------------
/// A payload that the format can carry and give back: every count fits its
/// prefix; the elements of a list have no name and are of the list's kind;
/// the members of a compound have distinct keys, and each is a tag, not the
/// end marker, whose name is its key.
pub open spec fn well_formed_payload(p: Payload) -> bool
    decreases p,
{
    match p {
        Payload::End => false,
        Payload::ByteArray(v) => v.len() <= max_len32(),
        Payload::String(s) => utf8_bytes(s).len() <= max_len16(),
        Payload::List { element_id, elements } => {
            &&& elements.len() <= max_len32()
            &&& forall|i: int|
                0 <= i < elements.len() ==> {
                    &&& (#[trigger] elements[i]).name is None
                    &&& elements[i].payload.id() == element_id
                    &&& well_formed_payload(elements[i].payload)
                }
        },
        Payload::Compound(members) => {
            &&& distinct_keys(members)
            &&& forall|i: int|
                0 <= i < members.len() ==> {
                    &&& (#[trigger] members[i]).1.name == Some(members[i].0)
                    &&& utf8_bytes(members[i].0).len() <= max_len16()
                    &&& well_formed_payload(members[i].1.payload)
                }
        },
        Payload::IntArray(v) => v.len() <= max_len32(),
        Payload::LongArray(v) => v.len() <= max_len32(),
        _ => true,
    }
}

/// A tag that the format can carry and give back: the end marker, or a tag
/// with a name that fits its prefix and a well-formed payload.
pub open spec fn well_formed(t: TagView) -> bool {
    ||| t == TagView::end()
    ||| {
        &&& t.name is Some
        &&& utf8_bytes(t.name->0).len() <= max_len16()
        &&& well_formed_payload(t.payload)
    }
}

} // verus!
