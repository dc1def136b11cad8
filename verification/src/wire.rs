//! Fixed-width integers on the wire: big-endian, two's complement.
//!
//! Everything here is stated with plain arithmetic, so that the relation
//! between a number and its bytes can be read off without bit operations.

use vstd::prelude::*;

verus! {

/// The non-negative number that stands for `v` in two's complement, for a
/// width whose values number `modulus`.
pub open spec fn unsigned(v: int, modulus: int) -> int {
    if v < 0 {
        v + modulus
    } else {
        v
    }
}

/// The signed number that `u` stands for in two's complement, for a width
/// whose values number `modulus`.
pub open spec fn signed(u: int, modulus: int) -> int {
    if 2 * u >= modulus {
        u - modulus
    } else {
        u
    }
}

/// The two bytes of `u`, most significant first.
pub open spec fn be16(u: int) -> Seq<u8> {
    seq![(u / 0x100) as u8, (u % 0x100) as u8]
}

/// The four bytes of `u`, most significant first.
pub open spec fn be32(u: int) -> Seq<u8> {
    seq![
        (u / 0x100_0000) as u8,
        (u / 0x1_0000 % 0x100) as u8,
        (u / 0x100 % 0x100) as u8,
        (u % 0x100) as u8,
    ]
}

/// The eight bytes of `u`, most significant first.
pub open spec fn be64(u: int) -> Seq<u8> {
    be32(u / 0x1_0000_0000) + be32(u % 0x1_0000_0000)
}

/// The number whose big-endian form is the first two bytes of `b`.
pub open spec fn val16(b: Seq<u8>) -> int {
    b[0] * 0x100 + b[1]
}

/// The number whose big-endian form is the first four bytes of `b`.
pub open spec fn val32(b: Seq<u8>) -> int {
    b[0] * 0x100_0000 + b[1] * 0x1_0000 + b[2] * 0x100 + b[3]
}

/// The number whose big-endian form is the first eight bytes of `b`.
pub open spec fn val64(b: Seq<u8>) -> int {
    val32(b) * 0x1_0000_0000 + val32(b.skip(4))
}

/// The byte of a signed byte.
pub open spec fn i8_bytes(v: i8) -> Seq<u8> {
    seq![unsigned(v as int, 0x100) as u8]
}

/// The two bytes of a signed 16-bit number.
pub open spec fn i16_bytes(v: i16) -> Seq<u8> {
    be16(unsigned(v as int, 0x1_0000))
}

/// The four bytes of a signed 32-bit number.
pub open spec fn i32_bytes(v: i32) -> Seq<u8> {
    be32(unsigned(v as int, 0x1_0000_0000))
}

/// The eight bytes of a signed 64-bit number.
pub open spec fn i64_bytes(v: i64) -> Seq<u8> {
    be64(unsigned(v as int, 0x1_0000_0000_0000_0000))
}

/// The four bytes of an unsigned 32-bit number.
pub open spec fn u32_bytes(v: u32) -> Seq<u8> {
    be32(v as int)
}

/// The eight bytes of an unsigned 64-bit number.
pub open spec fn u64_bytes(v: u64) -> Seq<u8> {
    be64(v as int)
}

/// The signed byte at the start of `b`.
pub open spec fn i8_at(b: Seq<u8>) -> i8 {
    signed(b[0] as int, 0x100) as i8
}

/// The signed 16-bit number at the start of `b`.
pub open spec fn i16_at(b: Seq<u8>) -> i16 {
    signed(val16(b), 0x1_0000) as i16
}

/// The signed 32-bit number at the start of `b`.
pub open spec fn i32_at(b: Seq<u8>) -> i32 {
    signed(val32(b), 0x1_0000_0000) as i32
}

/// The signed 64-bit number at the start of `b`.
pub open spec fn i64_at(b: Seq<u8>) -> i64 {
    signed(val64(b), 0x1_0000_0000_0000_0000) as i64
}

/// The unsigned 32-bit number at the start of `b`.
pub open spec fn u32_at(b: Seq<u8>) -> u32 {
    val32(b) as u32
}

/// The unsigned 64-bit number at the start of `b`.
pub open spec fn u64_at(b: Seq<u8>) -> u64 {
    val64(b) as u64
}

/// Reading back the bytes of a number gives the number, whatever follows them.
pub proof fn lemma_be16_val(u: int, rest: Seq<u8>)
    requires
        0 <= u < 0x1_0000,
    ensures
        be16(u).len() == 2,
        val16(be16(u) + rest) == u,
{
}

/// As `lemma_be16_val`, for four bytes.
pub proof fn lemma_be32_val(u: int, rest: Seq<u8>)
    requires
        0 <= u < 0x1_0000_0000,
    ensures
        be32(u).len() == 4,
        val32(be32(u) + rest) == u,
{
}

/// As `lemma_be16_val`, for eight bytes.
pub proof fn lemma_be64_val(u: int, rest: Seq<u8>)
    requires
        0 <= u < 0x1_0000_0000_0000_0000,
    ensures
        be64(u).len() == 8,
        val64(be64(u) + rest) == u,
{
    let hi = u / 0x1_0000_0000;
    let lo = u % 0x1_0000_0000;
    let b = be64(u) + rest;
    lemma_be32_val(hi, be32(lo) + rest);
    lemma_be32_val(lo, rest);
    assert(b =~= be32(hi) + (be32(lo) + rest));
    assert(b.skip(4) =~= be32(lo) + rest);
}

} // verus!
