//! Reading values from the bytes of a chunk.

use vstd::prelude::*;
use vstd::slice::{slice_subrange, slice_to_vec};
use vstd::utf8::{valid_utf8, decode_utf8, encode_utf8, encode_utf8_decode_utf8};
use crate::error::Error;

verus! {

/// The byte at `pos` of `s` and the place after it.
pub open spec fn read_byte(s: Seq<u8>, pos: int) -> Option<(u8, int)> {
    if 0 <= pos < s.len() {
        Some((s[pos], pos + 1))
    } else {
        None
    }
}

/// The `n` bytes of `s` from `pos` on and the place after them.
pub open spec fn read_bytes(s: Seq<u8>, pos: int, n: int) -> Option<(Seq<u8>, int)> {
    if 0 <= pos && 0 <= n && pos + n <= s.len() {
        Some((s.subrange(pos, pos + n), pos + n))
    } else {
        None
    }
}

/// The number that the bytes `b` spell, lowest byte first.
pub open spec fn le_value(b: Seq<u8>) -> nat
    decreases b.len(),
{
    if b.len() == 0 {
        0
    } else {
        b[0] as nat + 256 * le_value(b.drop_first())
    }
}

/// The integer of `n` bytes at `pos`, lowest byte first, cut to 32 bits.
pub open spec fn read_int(s: Seq<u8>, pos: int, n: int) -> Option<(u32, int)> {
    match read_bytes(s, pos, n) {
        Some((b, p)) => Some(((le_value(b) % 0x1_0000_0000) as u32, p)),
        None => None,
    }
}

/// The bits of the double at `pos`: two integers of `n` bytes, the low half
/// first.
pub open spec fn read_number(s: Seq<u8>, pos: int, n: int) -> Option<(u64, int)> {
    match read_int(s, pos, n) {
        Some((low, p)) => match read_int(s, p, n) {
            Some((high, q)) => Some(((high * 0x1_0000_0000 + low) as u64, q)),
            None => None,
        },
        None => None,
    }
}

/// The bytes of a string without the byte that ends it.
pub open spec fn string_body(b: Seq<u8>) -> Seq<u8> {
    if b.len() > 0 {
        b.drop_last()
    } else {
        b
    }
}

/// The string at `pos`: a length of `size_t` bytes, then that many bytes,
/// of which the last ends the string and is left out. The rest must be
/// UTF-8.
pub open spec fn read_string(s: Seq<u8>, pos: int, size_t: int) -> Option<(Seq<char>, int)> {
    match read_int(s, pos, size_t) {
        Some((len, p)) => match read_bytes(s, p, len as int) {
            Some((b, q)) => if valid_utf8(string_body(b)) {
                Some((decode_utf8(string_body(b)), q))
            } else {
                None
            },
            None => None,
        },
        None => None,
    }
}

/// `String::from_utf8` of std: the string whose bytes are `bytes`, and
/// nothing where `bytes` are not UTF-8.
#[verifier::external_body]
fn string_from_utf8(bytes: Vec<u8>) -> (r: Option<String>)
    ensures
        r is Some <==> valid_utf8(bytes@),
        r is Some ==> encode_utf8(r->0@) == bytes@,
{
    match String::from_utf8(bytes) {
        Ok(s) => Some(s),
        Err(_) => None,
    }
}

/// A place in a buffer of bytes, from which values are read in turn.
pub struct Reader<'a>(&'a [u8], usize);

impl<'a> Reader<'a> {
    /// The whole buffer.
    pub closed spec fn buffer(&self) -> Seq<u8> {
        self.0@
    }

    /// The place of the next byte to read.
    pub closed spec fn position(&self) -> int {
        self.1 as int
    }

    /// The place is inside the buffer or at its end.
    pub open spec fn wf(&self) -> bool {
        0 <= self.position() <= self.buffer().len()
    }

    pub fn new(buffer: &'a [u8]) -> (r: Self)
        ensures
            r.wf(),
            r.buffer() == buffer@,
            r.position() == 0,
    {
        Self(buffer, 0)
    }

    pub fn as_bytes(&self) -> (r: &[u8])
        ensures
            r@ == self.buffer(),
    {
        self.0
    }

    /// Reads one byte, or fails at the end of the buffer and stays there.
    pub fn byte(&mut self) -> (r: Result<u8, Error>)
        requires
            old(self).wf(),
        ensures
            final(self).wf(),
            final(self).buffer() == old(self).buffer(),
            final(self).position() >= old(self).position(),
            match read_byte(old(self).buffer(), old(self).position()) {
                Some((v, p)) => r == Ok::<u8, Error>(v) && final(self).position() == p,
                None => r == Err::<u8, Error>(Error::FormatError) && final(self).position() == old(
                    self,
                ).position(),
            },
    {
        if self.1 < self.0.len() {
            let v = self.0[self.1];
            self.1 += 1;
            Ok(v)
        } else {
            Err(Error::FormatError)
        }
    }

    /// Reads `n` bytes, or fails where fewer are left and stays there.
    pub fn bytes(&mut self, n: usize) -> (r: Result<&'a [u8], Error>)
        requires
            old(self).wf(),
        ensures
            final(self).wf(),
            final(self).buffer() == old(self).buffer(),
            final(self).position() >= old(self).position(),
            match read_bytes(old(self).buffer(), old(self).position(), n as int) {
                Some((v, p)) => r is Ok && r->Ok_0@ == v && final(self).position() == p,
                None => r == Err::<&[u8], Error>(Error::FormatError) && final(self).position()
                    == old(self).position(),
            },
    {
        if n <= self.0.len() - self.1 {
            let v = slice_subrange(self.0, self.1, self.1 + n);
            self.1 += n;
            Ok(v)
        } else {
            Err(Error::FormatError)
        }
    }

    /// Reads an integer of `n` bytes, lowest byte first, cut to 32 bits.
    pub fn integer(&mut self, n: usize) -> (r: Result<u32, Error>)
        requires
            old(self).wf(),
        ensures
            final(self).wf(),
            final(self).buffer() == old(self).buffer(),
            final(self).position() >= old(self).position(),
            match read_int(old(self).buffer(), old(self).position(), n as int) {
                Some((v, p)) => r == Ok::<u32, Error>(v) && final(self).position() == p,
                None => r == Err::<u32, Error>(Error::FormatError) && final(self).position() == old(
                    self,
                ).position(),
            },
    {
        let bytes = self.bytes(n)?;
        let mut sum: u32 = 0;
        let mut i: usize = n;
        assert(bytes@.subrange(n as int, n as int) =~= Seq::<u8>::empty());
        while i > 0
            invariant
                i <= n,
                n == bytes@.len(),
                sum == le_value(bytes@.subrange(i as int, n as int)) % 0x1_0000_0000,
            decreases i,
        {
            i -= 1;
            let ghost tail = bytes@.subrange(i + 1, n as int);
            let ghost all = bytes@.subrange(i as int, n as int);
            assert(all.drop_first() =~= tail);
            assert(all[0] == bytes@[i as int]);
            assert((bytes@[i as int] + 256 * le_value(tail)) % 0x1_0000_0000 == bytes@[i as int]
                + 256 * ((le_value(tail) % 0x1_0000_0000) % 0x100_0000));
            sum = (sum % 0x100_0000) * 256 + bytes[i] as u32;
        }
        assert(bytes@.subrange(0, n as int) =~= bytes@);
        Ok(sum)
    }

    /// Reads the bits of a double: two integers of `size` bytes, the low
    /// half first.
    pub fn number(&mut self, size: usize) -> (r: Result<u64, Error>)
        requires
            old(self).wf(),
        ensures
            final(self).wf(),
            final(self).buffer() == old(self).buffer(),
            final(self).position() >= old(self).position(),
            match read_number(old(self).buffer(), old(self).position(), size as int) {
                Some((v, p)) => r == Ok::<u64, Error>(v) && final(self).position() == p,
                None => r == Err::<u64, Error>(Error::FormatError),
            },
    {
        let a = self.integer(size)? as u64;
        let a2 = self.integer(size)? as u64;
        Ok(a2 * 0x1_0000_0000 + a)
    }

    /// Reads a string: its length, as an integer of `size_t` bytes, then
    /// its bytes, of which the last is dropped.
    pub fn string(&mut self, size_t: u8) -> (r: Result<String, Error>)
        requires
            old(self).wf(),
        ensures
            final(self).wf(),
            final(self).buffer() == old(self).buffer(),
            final(self).position() >= old(self).position(),
            match read_string(old(self).buffer(), old(self).position(), size_t as int) {
                Some((v, p)) => r is Ok && r->Ok_0@ == v && final(self).position() == p,
                None => r == Err::<String, Error>(Error::FormatError),
            },
    {
        let str_size = self.integer(size_t as usize)?;
        let mut str = slice_to_vec(self.bytes(str_size as usize)?);
        str.pop();
        match string_from_utf8(str) {
            Some(s) => {
                proof {
                    encode_utf8_decode_utf8(s@);
                }
                Ok(s)
            },
            None => Err(Error::FormatError),
        }
    }
}

} // verus!
