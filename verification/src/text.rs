//! Text and its bytes: what UTF-8 means here, and small services on strings.
//!
//! The three functions `utf8_bytes`, `is_utf8` and `utf8_text` are vstd's
//! `encode_utf8`, `valid_utf8` and `decode_utf8` under names that proofs do
//! not look into unless they ask: the format only needs that text and bytes
//! go back and forth.

use vstd::prelude::*;
use vstd::utf8::{
    decode_utf8, decode_utf8_encode_utf8, encode_utf8, encode_utf8_decode_utf8,
    encode_utf8_valid_utf8, valid_utf8,
};

verus! {

/// The UTF-8 bytes of a text.
#[verifier::opaque]
pub open spec fn utf8_bytes(s: Seq<char>) -> Seq<u8> {
    encode_utf8(s)
}

/// Whether bytes are the UTF-8 encoding of a text.
#[verifier::opaque]
pub open spec fn is_utf8(bytes: Seq<u8>) -> bool {
    valid_utf8(bytes)
}

/// The text that bytes encode, if they are UTF-8.
#[verifier::opaque]
pub open spec fn utf8_text(bytes: Seq<u8>) -> Seq<char> {
    decode_utf8(bytes)
}

/// The bytes of a text are UTF-8 and encode that text.
pub proof fn lemma_text_of_bytes(s: Seq<char>)
    ensures
        is_utf8(utf8_bytes(s)),
        utf8_text(utf8_bytes(s)) == s,
{
    reveal(utf8_bytes);
    reveal(is_utf8);
    reveal(utf8_text);
    encode_utf8_valid_utf8(s);
    encode_utf8_decode_utf8(s);
}

/// Bytes that are UTF-8 are the bytes of the text that they encode.
pub proof fn lemma_bytes_of_text(bytes: Seq<u8>)
    requires
        is_utf8(bytes),
    ensures
        utf8_bytes(utf8_text(bytes)) == bytes,
{
    reveal(utf8_bytes);
    reveal(is_utf8);
    reveal(utf8_text);
    decode_utf8_encode_utf8(bytes);
}

/// An owned copy of `s`.
pub(crate) fn owned(s: &str) -> (r: String)
    ensures
        r@ == s@,
{
    s.to_owned()
}

/// An owned copy of `s`, as a name that is present.
pub(crate) fn some_owned(s: &str) -> (r: Option<String>)
    ensures
        r == Some(r.unwrap()),
        r.unwrap()@ == s@,
{
    Some(s.to_owned())
}

/// The UTF-8 bytes of `s`.
pub(crate) fn bytes_of(s: &str) -> (bytes: &[u8])
    ensures
        bytes@ == utf8_bytes(s@),
{
    reveal(utf8_bytes);
    s.as_bytes()
}

/// Whether two strings hold the same characters, found by comparing their
/// bytes.
pub fn same_text(a: &str, b: &str) -> (r: bool)
    ensures
        r == (a@ == b@),
{
    let x = bytes_of(a);
    let y = bytes_of(b);
    proof {
        lemma_text_of_bytes(a@);
        lemma_text_of_bytes(b@);
    }
    if x.len() != y.len() {
        return false;
    }
    let mut i: usize = 0;
    while i < x.len()
        invariant
            i <= x.len(),
            x.len() == y.len(),
            x@ == utf8_bytes(a@),
            y@ == utf8_bytes(b@),
            utf8_text(utf8_bytes(a@)) == a@,
            utf8_text(utf8_bytes(b@)) == b@,
            forall|j: int| 0 <= j < i ==> x@[j] == y@[j],
        decreases x.len() - i,
    {
        if x[i] != y[i] {
            return false;
        }
        i += 1;
    }
    assert(x@ =~= y@);
    true
}

/// The text that `bytes` encode, if they are UTF-8.
///
/// This is `String::from_utf8` of the standard library, which nothing here
/// proves: it is taken to succeed exactly on valid UTF-8, as vstd's
/// `valid_utf8` defines it, and then to give the characters that the bytes
/// encode, as vstd's `decode_utf8` gives them.
#[verifier::external_body]
pub(crate) fn text_from_utf8(bytes: Vec<u8>) -> (r: Option<String>)
    ensures
        r is Some <==> is_utf8(bytes@),
        r is Some ==> r.unwrap()@ == utf8_text(bytes@),
{
    String::from_utf8(bytes).ok()
}

} // verus!
