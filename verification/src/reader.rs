//! Reading tags out of bytes in memory.

use vstd::prelude::*;
use vstd::slice::{slice_subrange, slice_to_vec, spec_slice_len};

use crate::entries::{with_member, Entries};
use crate::error::NbtError;
use crate::format::{
    after, decode_bytes, decode_count, decode_elements, decode_i16, decode_i32, decode_i64,
    decode_i8, decode_ints, decode_longs, decode_members, decode_payload, decode_tag, decode_text,
    decode_u32, decode_u64, decode_u8, later, lemma_after_after, lemma_element_step,
    lemma_later_later, lemma_member_step, well_formed, well_formed_payload, Decoded,
};
use crate::laws::decoded::{lemma_decoded_payload, lemma_decoded_well_formed};
use crate::laws::joined::lemma_after_ends;
use crate::tag::{name_view, views, Tag, TagId, TagView};
use crate::text::text_from_utf8;
use crate::wire::{i32_at, i64_at};

verus! {

/// A reader over bytes in memory: the bytes, and how many of them were read.
pub struct Reader<'a> {
    inner: &'a [u8],
    pos: usize,
}

/// `now` is `before` after `k` more bytes were read.
pub open spec fn took(now: Reader, before: Reader, k: nat) -> bool {
    &&& now.source() == before.source()
    &&& now.position() == before.position() + k
    &&& now.position() <= now.source().len()
    &&& now.remaining() == after(before.remaining(), k)
}

/// `now` is `before` after some bytes, or none, were read.
pub open spec fn went_on(now: Reader, before: Reader) -> bool {
    &&& now.source() == before.source()
    &&& before.position() <= now.position() <= now.source().len()
}

/// A read that gave `r` did what `expected` says: it gave that value and took
/// that many bytes, or failed in that way.
pub open spec fn reads<T>(now: Reader, before: Reader, expected: Decoded<T>, r: Result<T, NbtError>)
    -> bool {
    match expected {
        Ok((v, k)) => r == Ok::<T, NbtError>(v) && took(now, before, k),
        Err(e) => r == Err::<T, NbtError>(e) && went_on(now, before),
    }
}

/// As `reads`, for a text.
pub open spec fn reads_text(
    now: Reader,
    before: Reader,
    expected: Decoded<Seq<char>>,
    r: Result<String, NbtError>,
) -> bool {
    match expected {
        Ok((v, k)) => r is Ok && r.unwrap()@ == v && took(now, before, k),
        Err(e) => r == Err::<String, NbtError>(e) && went_on(now, before),
    }
}

/// As `reads`, for a tag.
pub open spec fn reads_tag(
    now: Reader,
    before: Reader,
    expected: Decoded<TagView>,
    r: Result<Tag, NbtError>,
) -> bool {
    match expected {
        Ok((v, k)) => r is Ok && r.unwrap()@ == v && took(now, before, k),
        Err(e) => r is Err && r.unwrap_err() == e && went_on(now, before),
    }
}

impl<'a> Reader<'a> {
    #[verifier::type_invariant]
    spec fn within(&self) -> bool {
        self.pos <= self.inner@.len() <= usize::MAX
    }

    /// All the bytes that the reader was made over.
    pub closed spec fn source(&self) -> Seq<u8> {
        self.inner@
    }

    /// How many bytes were read.
    pub closed spec fn position(&self) -> nat {
        self.pos as nat
    }

    /// The bytes that are still to be read.
    pub open spec fn remaining(&self) -> Seq<u8> {
        after(self.source(), self.position())
    }

    /// A reader at the start of `inner`.
    pub fn new(inner: &'a [u8]) -> (r: Self)
        ensures
            r.source() == inner@,
            r.position() == 0,
            r.remaining() == inner@,
    {
        assert(inner@.skip(0) =~= inner@);
        assert(spec_slice_len(inner) == inner@.len());
        Reader { inner, pos: 0 }
    }

    /// How many bytes were read.
    pub fn consumed(&self) -> (n: usize)
        ensures
            n == self.position(),
            n <= self.source().len(),
    {
        proof {
            use_type_invariant(self);
        }
        self.pos
    }

    /// The number of bytes that are still to be read.
    fn available(&self) -> (n: usize)
        ensures
            n == self.remaining().len(),
            self.position() + n == self.source().len(),
    {
        proof {
            use_type_invariant(self);
        }
        self.inner.len() - self.pos
    }

    /// The byte `i` places ahead.
    fn peek(&self, i: usize) -> (v: u8)
        requires
            i < self.remaining().len(),
        ensures
            v == self.remaining()[i as int],
    {
        proof {
            use_type_invariant(self);
        }
        self.inner[self.pos + i]
    }

    /// Passes over `n` bytes.
    fn advance(&mut self, n: usize)
        requires
            n <= old(self).remaining().len(),
        ensures
            took(*final(self), *old(self), n as nat),
    {
        proof {
            use_type_invariant(&*self);
        }
        self.pos = self.pos + n;
        assert(self.remaining() =~= after(old(self).remaining(), n as nat));
    }

    /// The number whose big-endian form is the four bytes `i` places ahead.
    fn peek32(&self, i: usize) -> (v: u32)
        requires
            i + 4 <= self.remaining().len(),
        ensures
            v == crate::wire::val32(self.remaining().skip(i as int)),
    {
        proof {
            use_type_invariant(self);
        }
        let b0: u32 = self.peek(i) as u32;
        let b1: u32 = self.peek(i + 1) as u32;
        let b2: u32 = self.peek(i + 2) as u32;
        let b3: u32 = self.peek(i + 3) as u32;
        b0 * 0x100_0000 + b1 * 0x1_0000 + b2 * 0x100 + b3
    }

    /// Reads one byte.
    pub fn read_u8(&mut self) -> (r: Result<u8, NbtError>)
        ensures
            reads(*final(self), *old(self), decode_u8(old(self).remaining()), r),
    {
        if self.available() < 1 {
            return Err(NbtError::UnexpectedEof);
        }
        let v = self.peek(0);
        self.advance(1);
        Ok(v)
    }

    /// Reads one signed byte.
    pub fn read_i8(&mut self) -> (r: Result<i8, NbtError>)
        ensures
            reads(*final(self), *old(self), decode_i8(old(self).remaining()), r),
    {
        let u = self.read_u8()?;
        if u >= 0x80 {
            Ok((u as i16 - 0x100) as i8)
        } else {
            Ok(u as i8)
        }
    }

    /// Reads a signed 16-bit number, most significant byte first.
    pub fn read_i16(&mut self) -> (r: Result<i16, NbtError>)
        ensures
            reads(*final(self), *old(self), decode_i16(old(self).remaining()), r),
    {
        if self.available() < 2 {
            return Err(NbtError::UnexpectedEof);
        }
        let u: u16 = (self.peek(0) as u16) * 0x100 + (self.peek(1) as u16);
        self.advance(2);
        if u >= 0x8000 {
            Ok((u as i32 - 0x1_0000) as i16)
        } else {
            Ok(u as i16)
        }
    }

    /// Reads a signed 32-bit number, most significant byte first.
    pub fn read_i32(&mut self) -> (r: Result<i32, NbtError>)
        ensures
            reads(*final(self), *old(self), decode_i32(old(self).remaining()), r),
    {
        let u = self.read_u32()?;
        if u >= 0x8000_0000 {
            Ok((u as i64 - 0x1_0000_0000) as i32)
        } else {
            Ok(u as i32)
        }
    }

    /// Reads a signed 64-bit number, most significant byte first.
    pub fn read_i64(&mut self) -> (r: Result<i64, NbtError>)
        ensures
            reads(*final(self), *old(self), decode_i64(old(self).remaining()), r),
    {
        let u = self.read_u64()?;
        if u >= 0x8000_0000_0000_0000 {
            Ok((u - 0x8000_0000_0000_0000) as i64 + i64::MIN)
        } else {
            Ok(u as i64)
        }
    }

    /// Reads the thirty-two bits of a float, most significant byte first.
    pub fn read_f32(&mut self) -> (r: Result<u32, NbtError>)
        ensures
            reads(*final(self), *old(self), decode_u32(old(self).remaining()), r),
    {
        self.read_u32()
    }

    /// Reads the sixty-four bits of a double, most significant byte first.
    pub fn read_f64(&mut self) -> (r: Result<u64, NbtError>)
        ensures
            reads(*final(self), *old(self), decode_u64(old(self).remaining()), r),
    {
        self.read_u64()
    }

    /// Reads an unsigned 32-bit number, most significant byte first.
    fn read_u32(&mut self) -> (r: Result<u32, NbtError>)
        ensures
            reads(*final(self), *old(self), decode_u32(old(self).remaining()), r),
    {
        if self.available() < 4 {
            return Err(NbtError::UnexpectedEof);
        }
        assert(self.remaining().skip(0) =~= self.remaining());
        let u = self.peek32(0);
        self.advance(4);
        Ok(u)
    }

    /// Reads an unsigned 64-bit number, most significant byte first.
    fn read_u64(&mut self) -> (r: Result<u64, NbtError>)
        ensures
            reads(*final(self), *old(self), decode_u64(old(self).remaining()), r),
    {
        if self.available() < 8 {
            return Err(NbtError::UnexpectedEof);
        }
        assert(self.remaining().skip(0) =~= self.remaining());
        let hi: u64 = self.peek32(0) as u64;
        let lo: u64 = self.peek32(4) as u64;
        self.advance(8);
        Ok(hi * 0x1_0000_0000 + lo)
    }

    /// Reads a 32-bit count of elements.
    fn read_count(&mut self) -> (r: Result<usize, NbtError>)
        ensures
            r is Ok ==> r.unwrap() <= 0x7fff_ffff,
            reads(
                *final(self),
                *old(self),
                decode_count(old(self).remaining()),
                match r {
                    Ok(n) => Ok(n as nat),
                    Err(e) => Err(e),
                },
            ),
    {
        if self.available() < 4 {
            return Err(NbtError::UnexpectedEof);
        }
        assert(self.remaining().skip(0) =~= self.remaining());
        let u = self.peek32(0);
        if u >= 0x8000_0000 {
            return Err(NbtError::UnexpectedEof);
        }
        self.advance(4);
        Ok(u as usize)
    }

    /// Reads the next `n` bytes.
    fn read_bytes(&mut self, n: usize) -> (r: Result<Vec<u8>, NbtError>)
        ensures
            match decode_bytes(old(self).remaining(), n as nat) {
                Ok((v, k)) => r is Ok && r.unwrap()@ == v && took(*final(self), *old(self), k),
                Err(e) => r is Err && r.unwrap_err() == e && went_on(*final(self), *old(self)),
            },
    {
        if self.available() < n {
            return Err(NbtError::UnexpectedEof);
        }
        proof {
            use_type_invariant(&*self);
        }
        let bytes = slice_to_vec(slice_subrange(self.inner, self.pos, self.pos + n));
        assert(bytes@ =~= self.remaining().take(n as int));
        self.advance(n);
        Ok(bytes)
    }

    /// Reads a name or a string payload: a 16-bit count of bytes, then that
    /// many bytes of UTF-8.
    pub fn read_string(&mut self) -> (r: Result<String, NbtError>)
        ensures
            reads_text(*final(self), *old(self), decode_text(old(self).remaining()), r),
    {
        let ghost b = self.remaining();
        let len = self.read_i16()?;
        if len < 0 {
            return Err(NbtError::UnexpectedEof);
        }
        let bytes = self.read_bytes(len as usize)?;
        proof {
            lemma_after_after(b, 2, len as nat);
            assert(bytes@ =~= b.subrange(2, 2 + len));
        }
        match text_from_utf8(bytes) {
            Some(s) => Ok(s),
            None => Err(NbtError::InvalidUtf8),
        }
    }

    /// Reads `n` ints of four bytes each.
    fn read_ints(&mut self, n: usize) -> (r: Result<Vec<i32>, NbtError>)
        ensures
            match decode_ints(old(self).remaining(), n as nat) {
                Ok((v, k)) => r is Ok && r.unwrap()@ == v && took(*final(self), *old(self), k),
                Err(e) => r is Err && r.unwrap_err() == e && went_on(*final(self), *old(self)),
            },
    {
        if self.available() / 4 < n {
            return Err(NbtError::UnexpectedEof);
        }
        let ghost b = self.remaining();
        let mut v: Vec<i32> = Vec::new();
        let mut i: usize = 0;
        proof {
            use_type_invariant(&*self);
            assert(b =~= after(b, 0));
        }
        while i < n
            invariant
                i <= n,
                4 * n <= b.len(),
                b == old(self).remaining(),
                took(*self, *old(self), (4 * i) as nat),
                v@.len() == i,
                forall|j: int| 0 <= j < i ==> v@[j] == i32_at(b.skip(4 * j)),
            decreases n - i,
        {
            assert(self.remaining() =~= b.skip(4 * i));
            let x = self.read_i32()?;
            v.push(x);
            proof {
                lemma_after_after(b, (4 * i) as nat, 4);
            }
            i += 1;
        }
        assert(v@ =~= Seq::new(n as nat, |j: int| i32_at(b.skip(4 * j))));
        Ok(v)
    }

    /// Reads `n` longs of eight bytes each.
    fn read_longs(&mut self, n: usize) -> (r: Result<Vec<i64>, NbtError>)
        ensures
            match decode_longs(old(self).remaining(), n as nat) {
                Ok((v, k)) => r is Ok && r.unwrap()@ == v && took(*final(self), *old(self), k),
                Err(e) => r is Err && r.unwrap_err() == e && went_on(*final(self), *old(self)),
            },
    {
        if self.available() / 8 < n {
            return Err(NbtError::UnexpectedEof);
        }
        let ghost b = self.remaining();
        let mut v: Vec<i64> = Vec::new();
        let mut i: usize = 0;
        proof {
            use_type_invariant(&*self);
            assert(b =~= after(b, 0));
        }
        while i < n
            invariant
                i <= n,
                8 * n <= b.len(),
                b == old(self).remaining(),
                took(*self, *old(self), (8 * i) as nat),
                v@.len() == i,
                forall|j: int| 0 <= j < i ==> v@[j] == i64_at(b.skip(8 * j)),
            decreases n - i,
        {
            assert(self.remaining() =~= b.skip(8 * i));
            let x = self.read_i64()?;
            v.push(x);
            proof {
                lemma_after_after(b, (8 * i) as nat, 8);
            }
            i += 1;
        }
        assert(v@ =~= Seq::new(n as nat, |j: int| i64_at(b.skip(8 * j))));
        Ok(v)
    }

    /// Reads a whole tag: the byte of its kind and, unless that is zero, its
    /// name and its payload.
    pub fn read_tag(&mut self) -> (r: Result<Tag, NbtError>)
        ensures
            reads_tag(*final(self), *old(self), decode_tag(old(self).remaining()), r),
            r is Ok ==> well_formed(r.unwrap()@),
    {
        let ghost b = self.remaining();
        proof {
            lemma_decoded_well_formed(b);
        }
        let id = self.read_u8()?;
        if id == 0 {
            return Ok(Tag::End);
        }
        let name = Some(self.read_string()?);
        let ghost k = (self.position() - old(self).position() - 1) as nat;
        let r = self.read_payload(id, name);
        proof {
            if r is Ok {
                let n = (self.position() - old(self).position() - 1 - k) as nat;
                lemma_after_after(after(b, 1), k, n);
                lemma_after_after(b, 1, k + n);
            }
        }
        r
    }

    /// Reads the `n` elements of a list, each the payload of a tag of kind
    /// `id` without a name.
    fn read_elements(&mut self, id: TagId, n: usize) -> (r: Result<Vec<Tag>, NbtError>)
        ensures
            match decode_elements(id, n as nat, Seq::empty(), old(self).remaining()) {
                Ok((v, k)) => r is Ok && views(r.unwrap()@) == v && took(*final(self), *old(self), k),
                Err(e) => r is Err && r.unwrap_err() == e && went_on(*final(self), *old(self)),
            },
        decreases old(self).remaining().len(), 2nat,
    {
        let ghost first = self.remaining();
        let ghost all = decode_elements(id, n as nat, Seq::empty(), first);
        let mut elements: Vec<Tag> = Vec::new();
        let mut i: usize = 0;
        proof {
            use_type_invariant(&*self);
            assert(views(elements@) =~= Seq::empty());
            lemma_after_ends(first);
            lemma_later_later(0, 0, all);
        }
        while i < n
            invariant
                i <= n,
                first == old(self).remaining(),
                all == decode_elements(id, n as nat, Seq::empty(), first),
                took(*self, *old(self), (self.position() - old(self).position()) as nat),
                all == later(
                    (self.position() - old(self).position()) as nat,
                    decode_elements(id, (n - i) as nat, views(elements@), self.remaining()),
                ),
            decreases n - i,
        {
            let ghost done = views(elements@);
            let ghost before = *self;
            let ghost c = (self.position() - old(self).position()) as nat;
            let t = self.read_payload(id, None)?;
            proof {
                let k = (self.position() - before.position()) as nat;
                lemma_element_step(
                    id,
                    (n - i) as nat,
                    done,
                    before.remaining(),
                    t@,
                    k,
                    self.remaining(),
                );
                lemma_later_later(
                    c,
                    k,
                    decode_elements(id, (n - i - 1) as nat, done.push(t@), self.remaining()),
                );
                lemma_after_after(first, c, k);
            }
            elements.push(t);
            i += 1;
            assert(views(elements@) =~= done.push(t@));
        }
        Ok(elements)
    }

    /// Reads the members of a compound up to its closing zero byte.
    fn read_members(&mut self) -> (r: Result<Entries, NbtError>)
        ensures
            match decode_members(Seq::empty(), old(self).remaining()) {
                Ok((v, k)) => r is Ok && r.unwrap()@ == v && took(*final(self), *old(self), k),
                Err(e) => r is Err && r.unwrap_err() == e && went_on(*final(self), *old(self)),
            },
        decreases old(self).remaining().len(), 0nat,
    {
        let ghost first = self.remaining();
        let ghost all = decode_members(Seq::empty(), first);
        let mut entries = Entries::new();
        proof {
            use_type_invariant(&*self);
            lemma_after_ends(first);
            lemma_later_later(0, 0, all);
        }
        loop
            invariant
                first == old(self).remaining(),
                all == decode_members(Seq::empty(), first),
                took(*self, *old(self), (self.position() - old(self).position()) as nat),
                all == later(
                    (self.position() - old(self).position()) as nat,
                    decode_members(entries@, self.remaining()),
                ),
            decreases self.remaining().len(),
        {
            let ghost done = entries@;
            let ghost before = *self;
            let ghost c = (self.position() - old(self).position()) as nat;
            let id = self.read_u8()?;
            if id == 0 {
                proof {
                    lemma_after_after(first, c, 1);
                }
                return Ok(entries);
            }
            let key = self.read_string()?;
            let ghost k1 = (self.position() - before.position() - 1) as nat;
            let tag = self.read_payload(id, Some(key.clone()))?;
            proof {
                let k2 = (self.position() - before.position() - 1 - k1) as nat;
                lemma_member_step(done, before.remaining(), key@, k1, tag@, k2, self.remaining());
                lemma_later_later(
                    c,
                    1 + k1 + k2,
                    decode_members(with_member(done, key@, tag@), self.remaining()),
                );
                lemma_after_after(before.remaining(), 1, k1);
                lemma_after_after(before.remaining(), 1 + k1, k2);
                lemma_after_after(first, c, 1 + k1 + k2);
            }
            entries.insert(key, tag);
        }
    }

    /// Reads the payload of a tag of kind `id` and gives the tag, called
    /// `name`.
    #[verifier::rlimit(30)]
    pub fn read_payload(&mut self, id: TagId, name: Option<String>) -> (r: Result<Tag, NbtError>)
        ensures
            reads_tag(
                *final(self),
                *old(self),
                decode_payload(id, name_view(name), old(self).remaining()),
                r,
            ),
            r is Ok ==> well_formed_payload(r.unwrap()@.payload),
        decreases old(self).remaining().len(), 1nat,
    {
        let ghost b = self.remaining();
        proof {
            use_type_invariant(&*self);
            lemma_decoded_payload(id, name_view(name), b);
        }
        match id {
            1 => Ok(Tag::Byte { name, value: self.read_i8()? }),
            2 => Ok(Tag::Short { name, value: self.read_i16()? }),
            3 => Ok(Tag::Int { name, value: self.read_i32()? }),
            4 => Ok(Tag::Long { name, value: self.read_i64()? }),
            5 => Ok(Tag::Float { name, value: self.read_f32()? }),
            6 => Ok(Tag::Double { name, value: self.read_f64()? }),
            7 => {
                let len = self.read_count()?;
                let buf = self.read_bytes(len)?;
                proof {
                    lemma_after_after(b, 4, len as nat);
                }
                Ok(Tag::ByteArray { name, value: buf })
            },
            8 => {
                let s = self.read_string()?;
                Ok(Tag::String { name, value: s })
            },
            9 => {
                let elem_id = self.read_u8()?;
                let len = self.read_count()?;
                let elements = self.read_elements(elem_id, len)?;
                proof {
                    let k = (self.position() - old(self).position() - 5) as nat;
                    lemma_after_after(after(b, 1), 4, k);
                    lemma_after_after(b, 1, 4 + k);
                }
                Ok(Tag::List { name, element_id: elem_id, elements })
            },
            10 => {
                let entries = self.read_members()?;
                Ok(Tag::Compound { name, entries })
            },
            11 => {
                let len = self.read_count()?;
                let v = self.read_ints(len)?;
                proof {
                    lemma_after_after(b, 4, 4 * len as nat);
                }
                Ok(Tag::IntArray { name, value: v })
            },
            12 => {
                let len = self.read_count()?;
                let v = self.read_longs(len)?;
                proof {
                    lemma_after_after(b, 4, 8 * len as nat);
                }
                Ok(Tag::LongArray { name, value: v })
            },
            other => Err(NbtError::UnknownTagId(other)),
        }
    }
}

} // verus!
