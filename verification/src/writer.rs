//! Writing values as the bytes of a chunk.

use vstd::prelude::*;
use vstd::slice::slice_to_vec;
use vstd::string::StringSliceAdditionalSpecFns;
use vstd::utf8::encode_utf8;

verus! {

/// The `s` lowest bytes of `n`, lowest first.
pub open spec fn le_bytes(n: nat, s: nat) -> Seq<u8>
    decreases s,
{
    if s == 0 {
        Seq::empty()
    } else {
        seq![(n % 256) as u8] + le_bytes(n / 256, (s - 1) as nat)
    }
}

/// A double with the bits `n`, as two integers of `s` bytes: the low half,
/// then the high half.
pub open spec fn number_bytes(n: u64, s: nat) -> Seq<u8> {
    le_bytes((n % 0x1_0000_0000) as nat, s) + le_bytes((n / 0x1_0000_0000) as nat, s)
}

/// A string on the wire: the empty string is the length 0 alone; another
/// is its length with one added, its bytes, and a zero byte.
pub open spec fn string_bytes(str: Seq<char>, s: nat) -> Seq<u8> {
    if str.len() == 0 {
        le_bytes(0, s)
    } else {
        le_bytes(encode_utf8(str).len() + 1, s) + encode_utf8(str) + seq![0u8]
    }
}

/// A buffer of bytes that grows at its end.
pub struct Writer(Vec<u8>);

impl View for Writer {
    type V = Seq<u8>;

    closed spec fn view(&self) -> Seq<u8> {
        self.0@
    }
}

impl Writer {
    pub fn new() -> (r: Self)
        ensures
            r@ == Seq::<u8>::empty(),
    {
        Self(Vec::new())
    }

    pub fn as_bytes<'a>(&'a self) -> (r: &'a [u8])
        ensures
            r@ == self@,
    {
        self.0.as_slice()
    }

    pub fn byte(&mut self, b: u8)
        ensures
            final(self)@ == old(self)@.push(b),
    {
        self.0.push(b);
    }

    pub fn bytes(&mut self, bs: Vec<u8>)
        ensures
            final(self)@ == old(self)@ + bs@,
    {
        let mut i: usize = 0;
        while i < bs.len()
            invariant
                i <= bs.len(),
                self@ == old(self)@ + bs@.subrange(0, i as int),
            decreases bs.len() - i,
        {
            self.0.push(bs[i]);
            i += 1;
        }
        assert(bs@.subrange(0, bs.len() as int) =~= bs@);
    }

    /// Writes the `s` lowest bytes of `n`, lowest first.
    pub fn integer(&mut self, n: u32, s: u8)
        ensures
            final(self)@ == old(self)@ + le_bytes(n as nat, s as nat),
    {
        let mut num = n;
        let mut i: u8 = 0;
        let ghost mut done: Seq<u8> = Seq::empty();
        while i < s
            invariant
                i <= s,
                self@ == old(self)@ + done,
                done + le_bytes(num as nat, (s - i) as nat) == le_bytes(n as nat, s as nat),
            decreases s - i,
        {
            proof {
                let rest = le_bytes((num / 256) as nat, (s - i - 1) as nat);
                let b = (num % 256) as u8;
                assert(le_bytes(num as nat, (s - i) as nat) == seq![b] + rest);
                assert(done.push(b) + rest =~= done + (seq![b] + rest));
                assert(old(self)@ + done.push(b) =~= (old(self)@ + done).push(b));
                done = done.push(b);
            }
            self.byte((num % 256) as u8);
            num = num / 256;
            i += 1;
        }
        assert(done + le_bytes(num as nat, 0) =~= done);
    }

    /// Writes a string, its length as an integer of `s` bytes.
    pub fn string(&mut self, str: &str, s: u8)
        requires
            str.spec_bytes().len() < u32::MAX,
        ensures
            final(self)@ == old(self)@ + string_bytes(str@, s as nat),
    {
        let len = str.len();
        proof {
            if str@.len() == 0 {
                assert(encode_utf8(str@).len() == 0);
            } else {
                vstd::utf8::encode_utf8_first_scalar(str@);
                assert(encode_utf8(str@).len() > 0);
            }
        }
        if len == 0 {
            self.integer(0, s);
        } else {
            self.integer(len as u32 + 1, s);
            self.bytes(slice_to_vec(str.as_bytes()));
            self.byte(0);
            assert(self@ =~= old(self)@ + string_bytes(str@, s as nat));
        }
    }

    /// Writes the bits of a double as two integers of `s` bytes, the low
    /// half first.
    pub fn number(&mut self, n: u64, s: u8)
        ensures
            final(self)@ == old(self)@ + number_bytes(n, s as nat),
    {
        let a0 = (n / 0x1_0000_0000) as u32;
        let a1 = (n % 0x1_0000_0000) as u32;
        self.integer(a1, s);
        self.integer(a0, s);
        assert(self@ =~= old(self)@ + number_bytes(n, s as nat));
    }
}

} // verus!
