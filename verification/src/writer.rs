//! Writing tags as bytes in memory.

use vstd::prelude::*;

use crate::entries::Entries;
use crate::error::NbtError;
use crate::format::{
    encode_elements, encode_ints, encode_longs, encode_member, encode_members, encode_payload,
    encode_tag, encode_text, len16, len32,
};
use crate::tag::{views, Tag};
use crate::text::bytes_of;
use crate::wire::{i16_bytes, i32_bytes, i64_bytes, i8_bytes, u32_bytes, u64_bytes};

verus! {

/// A writer into memory: the bytes written so far. Writing to memory does not
/// fail; the result of each operation is there for callers that propagate it.
pub struct Writer {
    inner: Vec<u8>,
}

impl View for Writer {
    type V = Seq<u8>;

    closed spec fn view(&self) -> Seq<u8> {
        self.inner@
    }
}

impl Writer {
    /// A writer that goes on after the bytes of `inner`.
    pub fn new(inner: Vec<u8>) -> (w: Self)
        ensures
            w@ == inner@,
    {
        Writer { inner }
    }

    /// The bytes written, with those that the writer was given at their
    /// start.
    pub fn into_inner(self) -> (bytes: Vec<u8>)
        ensures
            bytes@ == self@,
    {
        self.inner
    }

    /// Writes one byte.
    pub fn write_u8(&mut self, v: u8) -> (r: Result<(), NbtError>)
        ensures
            r is Ok,
            final(self)@ == old(self)@ + seq![v],
    {
        self.inner.push(v);
        assert(self@ =~= old(self)@ + seq![v]);
        Ok(())
    }

    /// Writes one signed byte.
    pub fn write_i8(&mut self, v: i8) -> (r: Result<(), NbtError>)
        ensures
            r is Ok,
            final(self)@ == old(self)@ + i8_bytes(v),
    {
        let u: u8 = if v < 0 {
            (v as i16 + 0x100) as u8
        } else {
            v as u8
        };
        self.write_u8(u)
    }

    /// Writes a signed 16-bit number, most significant byte first.
    pub fn write_i16(&mut self, v: i16) -> (r: Result<(), NbtError>)
        ensures
            r is Ok,
            final(self)@ == old(self)@ + i16_bytes(v),
    {
        let u: u16 = if v < 0 {
            (v as i32 + 0x1_0000) as u16
        } else {
            v as u16
        };
        self.inner.push((u / 0x100) as u8);
        self.inner.push((u % 0x100) as u8);
        assert(self@ =~= old(self)@ + i16_bytes(v));
        Ok(())
    }

    /// Writes a signed 32-bit number, most significant byte first.
    pub fn write_i32(&mut self, v: i32) -> (r: Result<(), NbtError>)
        ensures
            r is Ok,
            final(self)@ == old(self)@ + i32_bytes(v),
    {
        let u: u32 = if v < 0 {
            (v as i64 + 0x1_0000_0000) as u32
        } else {
            v as u32
        };
        self.write_u32(u)
    }

    /// Writes a signed 64-bit number, most significant byte first.
    pub fn write_i64(&mut self, v: i64) -> (r: Result<(), NbtError>)
        ensures
            r is Ok,
            final(self)@ == old(self)@ + i64_bytes(v),
    {
        let u: u64 = if v < 0 {
            (v - i64::MIN) as u64 + 0x8000_0000_0000_0000
        } else {
            v as u64
        };
        self.write_u64(u)
    }

    /// Writes the thirty-two bits of a float, most significant byte first.
    pub fn write_f32(&mut self, v: u32) -> (r: Result<(), NbtError>)
        ensures
            r is Ok,
            final(self)@ == old(self)@ + u32_bytes(v),
    {
        self.write_u32(v)
    }

    /// Writes the sixty-four bits of a double, most significant byte first.
    pub fn write_f64(&mut self, v: u64) -> (r: Result<(), NbtError>)
        ensures
            r is Ok,
            final(self)@ == old(self)@ + u64_bytes(v),
    {
        self.write_u64(v)
    }

    /// Writes an unsigned 32-bit number, most significant byte first.
    fn write_u32(&mut self, v: u32) -> (r: Result<(), NbtError>)
        ensures
            r is Ok,
            final(self)@ == old(self)@ + u32_bytes(v),
    {
        self.inner.push((v / 0x100_0000) as u8);
        self.inner.push((v / 0x1_0000 % 0x100) as u8);
        self.inner.push((v / 0x100 % 0x100) as u8);
        self.inner.push((v % 0x100) as u8);
        assert(self@ =~= old(self)@ + u32_bytes(v));
        Ok(())
    }

    /// Writes an unsigned 64-bit number, most significant byte first.
    fn write_u64(&mut self, v: u64) -> (r: Result<(), NbtError>)
        ensures
            r is Ok,
            final(self)@ == old(self)@ + u64_bytes(v),
    {
        let hi: u32 = (v / 0x1_0000_0000) as u32;
        let lo: u32 = (v % 0x1_0000_0000) as u32;
        self.write_u32(hi)?;
        self.write_u32(lo)?;
        assert(self@ =~= old(self)@ + u64_bytes(v));
        Ok(())
    }

    /// Writes a count as a 16-bit prefix, of which only the low sixteen bits
    /// find room.
    fn write_len16(&mut self, n: usize) -> (r: Result<(), NbtError>)
        ensures
            r is Ok,
            final(self)@ == old(self)@ + len16(n as nat),
    {
        let m: usize = n % 0x1_0000;
        let v: i16 = if m >= 0x8000 {
            (m as i32 - 0x1_0000) as i16
        } else {
            m as i16
        };
        self.write_i16(v)
    }

    /// Writes a count as a 32-bit prefix, of which only the low thirty-two
    /// bits find room.
    fn write_len32(&mut self, n: usize) -> (r: Result<(), NbtError>)
        ensures
            r is Ok,
            final(self)@ == old(self)@ + len32(n as nat),
    {
        let m: u64 = (n as u64) % 0x1_0000_0000;
        let v: i32 = if m >= 0x8000_0000 {
            (m as i64 - 0x1_0000_0000) as i32
        } else {
            m as i32
        };
        self.write_i32(v)
    }

    /// Writes bytes as they are.
    fn write_all(&mut self, bytes: &[u8]) -> (r: Result<(), NbtError>)
        ensures
            r is Ok,
            final(self)@ == old(self)@ + bytes@,
    {
        self.inner.extend_from_slice(bytes);
        assert(self@ =~= old(self)@ + bytes@);
        Ok(())
    }

    /// Writes a name or a string payload: the number of its UTF-8 bytes as a
    /// 16-bit prefix, then the bytes.
    pub fn write_string(&mut self, s: &str) -> (r: Result<(), NbtError>)
        ensures
            r is Ok,
            final(self)@ == old(self)@ + encode_text(s@),
    {
        let bytes = bytes_of(s);
        self.write_len16(bytes.len())?;
        self.write_all(bytes)?;
        assert(self@ =~= old(self)@ + encode_text(s@));
        Ok(())
    }

    /// Writes the elements of an int array, four bytes each.
    fn write_ints(&mut self, v: &Vec<i32>) -> (r: Result<(), NbtError>)
        ensures
            r is Ok,
            final(self)@ == old(self)@ + encode_ints(v@),
    {
        let mut i: usize = 0;
        assert(v@.skip(0) =~= v@);
        while i < v.len()
            invariant
                i <= v@.len(),
                old(self)@ + encode_ints(v@) == self@ + encode_ints(v@.skip(i as int)),
            decreases v@.len() - i,
        {
            let ghost before = self@;
            let ghost rest = v@.skip(i as int);
            self.write_i32(v[i])?;
            i += 1;
            proof {
                assert(rest.skip(1) =~= v@.skip(i as int));
                assert(before + encode_ints(rest) =~= self@ + encode_ints(rest.skip(1)));
            }
        }
        assert(self@ + encode_ints(v@.skip(i as int)) =~= self@);
        Ok(())
    }

    /// Writes the elements of a long array, eight bytes each.
    fn write_longs(&mut self, v: &Vec<i64>) -> (r: Result<(), NbtError>)
        ensures
            r is Ok,
            final(self)@ == old(self)@ + encode_longs(v@),
    {
        let mut i: usize = 0;
        assert(v@.skip(0) =~= v@);
        while i < v.len()
            invariant
                i <= v@.len(),
                old(self)@ + encode_longs(v@) == self@ + encode_longs(v@.skip(i as int)),
            decreases v@.len() - i,
        {
            let ghost before = self@;
            let ghost rest = v@.skip(i as int);
            self.write_i64(v[i])?;
            i += 1;
            proof {
                assert(rest.skip(1) =~= v@.skip(i as int));
                assert(before + encode_longs(rest) =~= self@ + encode_longs(rest.skip(1)));
            }
        }
        assert(self@ + encode_longs(v@.skip(i as int)) =~= self@);
        Ok(())
    }

    /// Writes the payloads of the elements of a list, without their names.
    fn write_elements(&mut self, elements: &Vec<Tag>) -> (r: Result<(), NbtError>)
        ensures
            r is Ok,
            final(self)@ == old(self)@ + encode_elements(views(elements@)),
        decreases views(elements@), 0nat,
    {
        let ghost all = views(elements@);
        let mut i: usize = 0;
        assert(all.skip(0) =~= all);
        while i < elements.len()
            invariant
                i <= elements@.len(),
                all == views(elements@),
                old(self)@ + encode_elements(all) == self@ + encode_elements(all.skip(i as int)),
            decreases elements@.len() - i,
        {
            let ghost before = self@;
            let ghost rest = all.skip(i as int);
            assert(rest[0] == elements@[i as int]@);
            self.write_payload(&elements[i])?;
            i += 1;
            proof {
                assert(rest.skip(1) =~= all.skip(i as int));
                assert(before + encode_elements(rest) =~= self@ + encode_elements(rest.skip(1)));
            }
        }
        assert(self@ + encode_elements(all.skip(i as int)) =~= self@);
        Ok(())
    }

    /// Writes the members of a compound, each as the kind of its tag, its
    /// key and the tag's payload, in the order in which they are stored.
    fn write_members(&mut self, entries: &Entries) -> (r: Result<(), NbtError>)
        ensures
            r is Ok,
            final(self)@ == old(self)@ + encode_members(entries@),
        decreases entries@, 0nat,
    {
        let ghost all = entries@;
        let n = entries.len();
        let mut i: usize = 0;
        assert(all.skip(0) =~= all);
        while i < n
            invariant
                i <= n,
                n == all.len(),
                all == entries@,
                old(self)@ + encode_members(all) == self@ + encode_members(all.skip(i as int)),
            decreases n - i,
        {
            let ghost before = self@;
            let ghost rest = all.skip(i as int);
            let key = entries.key_at(i);
            let tag = entries.tag_at(i);
            assert(rest[0] == all[i as int]);
            self.write_u8(tag.id())?;
            self.write_string(key)?;
            self.write_payload(tag)?;
            i += 1;
            proof {
                assert(rest.skip(1) =~= all.skip(i as int));
                assert(self@ =~= before + encode_member(rest[0].0, rest[0].1.payload));
                assert(before + encode_members(rest) =~= self@ + encode_members(rest.skip(1)));
            }
        }
        assert(self@ + encode_members(all.skip(i as int)) =~= self@);
        Ok(())
    }

    /// Writes the payload of `tag`: what follows the kind and the name.
    pub fn write_payload(&mut self, tag: &Tag) -> (r: Result<(), NbtError>)
        ensures
            r is Ok,
            final(self)@ == old(self)@ + encode_payload(tag@.payload),
        decreases tag@.payload, 1nat,
    {
        match tag {
            Tag::End => {
                assert(self@ =~= old(self)@ + encode_payload(tag@.payload));
            },
            Tag::Byte { value, .. } => self.write_i8(*value)?,
            Tag::Short { value, .. } => self.write_i16(*value)?,
            Tag::Int { value, .. } => self.write_i32(*value)?,
            Tag::Long { value, .. } => self.write_i64(*value)?,
            Tag::Float { value, .. } => self.write_f32(*value)?,
            Tag::Double { value, .. } => self.write_f64(*value)?,
            Tag::ByteArray { value, .. } => {
                self.write_len32(value.len())?;
                self.write_all(value.as_slice())?;
                assert(self@ =~= old(self)@ + encode_payload(tag@.payload));
            },
            Tag::String { value, .. } => {
                self.write_string(value.as_str())?;
            },
            Tag::List { element_id, elements, .. } => {
                self.write_u8(*element_id)?;
                self.write_len32(elements.len())?;
                assert(decreases_to!(tag@.payload => tag@.payload->elements));
                self.write_elements(elements)?;
                assert(self@ =~= old(self)@ + encode_payload(tag@.payload));
            },
            Tag::Compound { entries, .. } => {
                assert(decreases_to!(tag@.payload => tag@.payload->Compound_0));
                self.write_members(entries)?;
                self.write_u8(0)?;
                assert(self@ =~= old(self)@ + encode_payload(tag@.payload));
            },
            Tag::IntArray { value, .. } => {
                self.write_len32(value.len())?;
                self.write_ints(value)?;
                assert(self@ =~= old(self)@ + encode_payload(tag@.payload));
            },
            Tag::LongArray { value, .. } => {
                self.write_len32(value.len())?;
                self.write_longs(value)?;
                assert(self@ =~= old(self)@ + encode_payload(tag@.payload));
            },
        }
        Ok(())
    }

    /// Writes a whole tag: the byte of its kind and, unless that is zero, its
    /// name, or the empty name if it has none, and its payload.
    pub fn write_tag(&mut self, tag: &Tag) -> (r: Result<(), NbtError>)
        ensures
            r is Ok,
            final(self)@ == old(self)@ + encode_tag(tag@),
    {
        let id = tag.id();
        self.write_u8(id)?;
        if id != 0 {
            match tag.name() {
                Some(name) => self.write_string(name)?,
                None => {
                    proof {
                        reveal_strlit("");
                    }
                    assert(""@ =~= Seq::<char>::empty());
                    self.write_string("")?
                },
            }
            self.write_payload(tag)?;
        }
        assert(self@ =~= old(self)@ + encode_tag(tag@));
        Ok(())
    }
}

} // verus!
