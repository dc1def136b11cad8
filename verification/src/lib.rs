//! A codec for the Named Binary Tag format: a tree of typed, optionally named
//! values, and its byte-exact big-endian encoding.
//!
//! [`Tag`] is the tree. [`format`] says in mathematics which bytes a tag is
//! written as and which tag bytes are read as; [`Reader`] and [`Writer`] do
//! so on bytes in memory, and [`laws`] proves that reading gives back what
//! was written.

use vstd::prelude::*;

pub mod entries;
pub mod equality;
pub mod error;
pub mod format;
pub mod laws;
pub mod reader;
pub mod tag;
pub mod text;
pub mod wire;
pub mod writer;

pub use entries::Entries;
pub use error::{ErrorKind, NbtError};
pub use reader::Reader;
pub use tag::{Tag, TagId};
pub use writer::Writer;

verus! {

/// Reads one tag from the start of `reader`. Bytes that follow the tag are
/// left alone.
pub fn read_nbt(reader: &[u8]) -> (r: Result<Tag, NbtError>)
    ensures
        match format::decode_tag(reader@) {
            Ok((tag, _)) => r is Ok && r.unwrap()@ == tag,
            Err(e) => r is Err && r.unwrap_err() == e,
        },
        r is Ok ==> format::well_formed(r.unwrap()@),
{
    Reader::new(reader).read_tag()
}

/// Writes `tag` after the bytes that `writer` holds.
pub fn write_nbt(tag: &Tag, writer: &mut Vec<u8>) -> (r: Result<(), NbtError>)
    ensures
        r is Ok,
        final(writer)@ == old(writer)@ + format::encode_tag(tag@),
{
    let mut bytes: Vec<u8> = Vec::new();
    core::mem::swap(writer, &mut bytes);
    let mut w = Writer::new(bytes);
    let r = w.write_tag(tag);
    *writer = w.into_inner();
    r
}

} // verus!
