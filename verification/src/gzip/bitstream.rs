//! The bit reader of the DEFLATE parser: bits are taken from the lowest bit
//! of each byte upward, as RFC 1951 packs them.
use vstd::prelude::*;
use vstd::arithmetic::power2::{pow2, lemma2_to64, lemma_pow2_pos};
use crate::zstd::bit_io::{bit_at, bits_value, lemma_bits_value_concat};

verus! {

/// A position in the input, counted in bits, rounded up to a whole byte.
pub open spec fn align_up(p: nat) -> nat {
    if p % 8 == 0 {
        p
    } else {
        (p - p % 8 + 8) as nat
    }
}

pub struct BitReader<'a> {
    data: &'a [u8],
    /// The byte that holds the next bit.
    pub byte_pos: usize,
    bit_pos: u32,
}

impl<'a> BitReader<'a> {
    /// The input.
    pub closed spec fn src(&self) -> Seq<u8> {
        self.data@
    }

    /// The position of the next bit.
    pub closed spec fn pos(&self) -> nat {
        (8 * self.byte_pos + self.bit_pos) as nat
    }

    pub closed spec fn wf(&self) -> bool {
        &&& self.byte_pos <= self.data@.len()
        &&& self.bit_pos < 8
        &&& self.byte_pos == self.data@.len() ==> self.bit_pos == 0
        &&& self.data@.len() <= usize::MAX
    }

    /// A reader stays within its input.
    pub proof fn lemma_within(&self)
        requires
            self.wf(),
        ensures
            self.pos() <= 8 * self.src().len(),
            self.src().len() <= usize::MAX,
    {
    }

    /// A reader of `data` at byte `start`.
    pub fn new(data: &'a [u8], start: usize) -> (r: BitReader<'a>)
        requires
            start <= data@.len(),
        ensures
            r.wf(),
            r.src() == data@,
            r.pos() == 8 * start,
    {
        assert(data@.len() == data.len());
        BitReader { data, byte_pos: start, bit_pos: 0 }
    }

    /// The byte that holds the next bit.
    pub fn byte_offset(&self) -> (n: usize)
        requires
            self.wf(),
        ensures
            n == self.pos() / 8,
    {
        self.byte_pos
    }

    /// The byte boundary at or after the reader's position.
    pub fn end_byte(&self) -> (n: usize)
        requires
            self.wf(),
        ensures
            n == align_up(self.pos()) / 8,
    {
        if self.bit_pos == 0 {
            self.byte_pos
        } else {
            self.byte_pos + 1
        }
    }

    /// Bytes from the one that holds the next bit to the end.
    pub fn remaining_bytes(&self) -> (n: usize)
        requires
            self.wf(),
        ensures
            n == self.src().len() - self.pos() / 8,
            self.pos() <= 8 * self.src().len(),
    {
        self.data.len() - self.byte_pos
    }

    /// Takes the next bit; `None`, reading nothing, at the end of the input.
    pub fn get_bit(&mut self) -> (r: Option<u32>)
        requires
            old(self).wf(),
        ensures
            final(self).wf(),
            final(self).src() == old(self).src(),
            old(self).pos() < 8 * old(self).src().len() ==> r == Some(bit_at(old(self).src(), old(self).pos() as int) as u32)
                && final(self).pos() == old(self).pos() + 1,
            old(self).pos() >= 8 * old(self).src().len() ==> r is None && final(self).pos() == old(self).pos(),
    {
        if self.byte_pos >= self.data.len() {
            return None;
        }
        let b = ((self.data[self.byte_pos] as u64) >> (self.bit_pos as u64)) & 1u64;
        proof {
            let p = self.pos() as int;
            assert(p / 8 == self.byte_pos && p % 8 == self.bit_pos);
        }
        if self.bit_pos == 7 {
            self.bit_pos = 0;
            self.byte_pos = self.byte_pos + 1;
        } else {
            self.bit_pos = self.bit_pos + 1;
        }
        Some(b as u32)
    }

    /// Takes the next `n` bits (at most 16) as a number whose lowest bit is
    /// the first one taken; `None`, reading nothing, where fewer remain.
    pub fn get_bits(&mut self, n: u32) -> (r: Option<u32>)
        requires
            old(self).wf(),
            n <= 16,
        ensures
            final(self).wf(),
            final(self).src() == old(self).src(),
            old(self).pos() + n <= 8 * old(self).src().len() ==> r == Some(
                bits_value(old(self).src(), old(self).pos() as int, n as nat) as u32,
            ) && final(self).pos() == old(self).pos() + n,
            old(self).pos() + n > 8 * old(self).src().len() ==> r is None && final(self).pos() == old(self).pos(),
    {
        let rest = self.data.len() - self.byte_pos;
        if rest < 3 && (n as usize) + (self.bit_pos as usize) > rest * 8 {
            return None;
        }
        let ghost s = self.data@;
        let ghost p0 = self.pos() as int;
        let mut v: u32 = 0;
        let mut i: u32 = 0;
        proof {
            assert(pow2(0) == 1) by {
                lemma2_to64();
            }
        }
        while i < n
            invariant
                self.wf(),
                self.src() == s,
                n <= 16,
                i <= n,
                self.pos() == p0 + i,
                p0 + n <= 8 * s.len(),
                v == bits_value(s, p0, i as nat),
                v < pow2(i as nat),
            decreases n - i,
        {
            let ghost bit = bit_at(s, p0 + i);
            let b = match self.get_bit() {
                Some(b) => b,
                None => 0,
            };
            proof {
                reveal_with_fuel(bits_value, 2);
                assert(bits_value(s, p0 + i, 1) == bit);
                crate::zstd::bit_io::lemma_bits_value_bound(s, p0 + i, 1);
                assert(pow2(1) == 2) by {
                    lemma2_to64();
                }
                assert(b == bit);
                assert(b == 0 || b == 1);
                lemma_bits_value_concat(s, p0, i as nat, 1);
                vstd::arithmetic::power2::lemma_pow2_unfold((i + 1) as nat);
                assert(pow2(16) == 0x10000) by {
                    lemma2_to64();
                }
                crate::zstd::fse::lemma_pow2_increases_le((i + 1) as nat, 16);
                crate::zstd::fse::lemma_shl_pow2(i as nat);
                assert(b * pow2(i as nat) <= pow2(i as nat)) by (nonlinear_arith)
                    requires
                        b == 0 || b == 1,
                ;
                assert(bits_value(s, p0, (i + 1) as nat) == v + pow2(i as nat) * b);
            }
            let add = b * (1u32 << i);
            assert(add == pow2(i as nat) * b) by (nonlinear_arith)
                requires
                    add == b * (1u32 << i),
                    (1u32 << i) == pow2(i as nat),
            ;
            v = v + add;
            i = i + 1;
        }
        Some(v)
    }

    /// Whether `n` more bits (at most 64) remain.
    pub fn has_bits(&self, n: usize) -> (r: bool)
        requires
            self.wf(),
            n <= 64,
        ensures
            r == (self.pos() + n <= 8 * self.src().len()),
    {
        let rest = self.data.len() - self.byte_pos;
        rest >= 9 || n + (self.bit_pos as usize) <= rest * 8
    }

    /// Takes the `n` whole bytes from the byte boundary where the reader
    /// stands; `None`, reading nothing, where fewer remain.
    pub fn take_bytes(&mut self, n: usize) -> (r: Option<&'a [u8]>)
        requires
            old(self).wf(),
            old(self).pos() % 8 == 0,
        ensures
            final(self).wf(),
            final(self).src() == old(self).src(),
            old(self).pos() / 8 + n <= old(self).src().len() ==> (r matches Some(b) && b@ == old(self).src().subrange(
                (old(self).pos() / 8) as int,
                (old(self).pos() / 8 + n) as int,
            ) && final(self).pos() == old(self).pos() + 8 * n),
            old(self).pos() / 8 + n > old(self).src().len() ==> r is None && final(self).pos() == old(self).pos(),
    {
        if n > self.data.len() - self.byte_pos {
            return None;
        }
        let start = self.byte_pos;
        self.byte_pos = self.byte_pos + n;
        Some(&self.data[start..start + n])
    }

    /// Moves to the start of the next byte, unless at one already.
    pub fn align(&mut self)
        requires
            old(self).wf(),
        ensures
            final(self).wf(),
            final(self).src() == old(self).src(),
            final(self).pos() == align_up(old(self).pos()),
    {
        if self.bit_pos != 0 {
            self.bit_pos = 0;
            self.byte_pos = self.byte_pos + 1;
        }
    }
}

} // verus!
