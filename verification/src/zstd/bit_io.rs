//! Low-level bit readers used by the Zstd FSE and Huffman decoders.
//!
//! Both readers see their input as one little-endian number: bit `p` of the
//! input is bit `p % 8` of byte `p / 8`. The forward reader takes bits upward
//! from position 0; the reversed reader takes them downward from the top, and
//! reads zeros once it has gone below position 0. What a read returns is, in
//! both cases, the run of bits it covered taken as a number whose lowest bit
//! is the lowest position (`bits_value`).
use vstd::prelude::*;
use vstd::arithmetic::power2::{pow2, lemma_pow2_unfold, lemma_pow2_pos, lemma2_to64, lemma_pow2_adds, lemma_pow2_strictly_increases};
use vstd::bits::{lemma_u64_shl_is_mul};

verus! {

/// Bit `p` of `s` read as one little-endian number; zero outside the input.
pub open spec fn bit_at(s: Seq<u8>, p: int) -> nat {
    if 0 <= p < 8 * s.len() {
        (((s[p / 8] as u64) >> ((p % 8) as u64)) & 1u64) as nat
    } else {
        0
    }
}

/// The `n` bits of `s` from position `start` upward, as a number whose lowest
/// bit is the bit at `start`.
pub open spec fn bits_value(s: Seq<u8>, start: int, n: nat) -> nat
    decreases n,
{
    if n == 0 {
        0
    } else {
        bit_at(s, start) + 2 * bits_value(s, start + 1, (n - 1) as nat)
    }
}

/// Bit `i` of a 64-bit word; zero outside the word.
pub open spec fn bit64(x: u64, i: int) -> nat {
    if 0 <= i < 64 {
        ((x >> (i as u64)) & 1u64) as nat
    } else {
        0
    }
}

/// The `k` bits of `x` from bit `a` upward, as a number.
pub open spec fn word_bits(x: u64, a: int, k: nat) -> nat
    decreases k,
{
    if k == 0 {
        0
    } else {
        bit64(x, a) + 2 * word_bits(x, a + 1, (k - 1) as nat)
    }
}

/// Mask of the `k` lowest bits.
pub open spec fn low_mask(k: u64) -> u64 {
    ((1u64 << k) - 1) as u64
}

proof fn lemma_mask_step(x: u64, a: u64, k: u64)
    requires
        a < 64,
        1 <= k < 64,
        a + k <= 64,
    ensures
        (x >> a) & low_mask(k) == ((x >> a) & 1u64) + 2 * ((x >> ((a + 1) as u64)) & low_mask(
            (k - 1) as u64,
        )),
{
    assert((x >> a) & (((1u64 << k) - 1) as u64) == ((x >> a) & 1u64) + 2 * ((x >> ((a + 1) as u64))
        & (((1u64 << ((k - 1) as u64)) - 1) as u64))) by (bit_vector)
        requires
            a < 64,
            1 <= k < 64,
            a + k <= 64,
    ;
}

/// Masking a shifted word reads its bits as a number.
pub proof fn lemma_word_bits(x: u64, a: u64, k: u64)
    requires
        a + k <= 64,
        k < 64,
    ensures
        ((x >> a) & low_mask(k)) as nat == word_bits(x, a as int, k as nat),
    decreases k,
{
    if k == 0 {
        assert((x >> a) & (((1u64 << 0u64) - 1) as u64) == 0) by (bit_vector);
    } else {
        lemma_mask_step(x, a, k);
        lemma_word_bits(x, (a + 1) as u64, (k - 1) as u64);
    }
}

/// A word whose bits agree with a stretch of the input reads the same number.
pub proof fn lemma_word_bits_ext(x: u64, a: int, s: Seq<u8>, p: int, k: nat)
    requires
        forall|i: int| 0 <= i < k ==> #[trigger] bit64(x, a + i) == bit_at(s, p + i),
    ensures
        word_bits(x, a, k) == bits_value(s, p, k),
    decreases k,
{
    if k > 0 {
        assert(bit64(x, a + 0) == bit_at(s, p + 0));
        assert forall|i: int| 0 <= i < k - 1 implies #[trigger] bit64(x, (a + 1) + i) == bit_at(
            s,
            (p + 1) + i,
        ) by {
            assert(bit64(x, a + (i + 1)) == bit_at(s, p + (i + 1)));
        }
        lemma_word_bits_ext(x, a + 1, s, p + 1, (k - 1) as nat);
    }
}

/// A run of bits read as a number is below two to the run's length.
pub proof fn lemma_bits_value_bound(s: Seq<u8>, start: int, n: nat)
    ensures
        bits_value(s, start, n) < pow2(n),
    decreases n,
{
    if n == 0 {
        lemma2_to64();
    } else {
        lemma_bits_value_bound(s, start + 1, (n - 1) as nat);
        lemma_pow2_unfold(n);
        assert(bit_at(s, start) <= 1) by {
            if 0 <= start < 8 * s.len() {
                let b = s[start / 8] as u64;
                let o = (start % 8) as u64;
                assert((b >> o) & 1u64 <= 1) by (bit_vector);
            }
        }
    }
}

/// Two adjacent runs of bits read as one number.
pub proof fn lemma_bits_value_concat(s: Seq<u8>, a: int, m: nat, k: nat)
    ensures
        bits_value(s, a, m + k) == bits_value(s, a, m) + pow2(m) * bits_value(s, a + m, k),
    decreases m,
{
    if m == 0 {
        lemma2_to64();
        assert(bits_value(s, a, 0 + k) == bits_value(s, a + 0, k));
    } else {
        lemma_bits_value_concat(s, a + 1, (m - 1) as nat, k);
        lemma_pow2_unfold(m);
        let x = bits_value(s, a + 1 + (m - 1), k);
        assert(a + 1 + (m - 1) == a + m);
        assert(bits_value(s, a, m + k) == bit_at(s, a) + 2 * bits_value(s, a + 1, ((m - 1) + k) as nat));
        vstd::arithmetic::mul::lemma_mul_is_associative(2, pow2((m - 1) as nat) as int, x as int);
    }
}

/// The bits of one input byte, from bit `o` upward, read as a number.
proof fn lemma_byte_bits(s: Seq<u8>, j: int, o: u64, k: u64)
    requires
        0 <= j < s.len(),
        o + k <= 8,
    ensures
        (((s[j] as u64) >> o) & low_mask(k)) as nat == bits_value(s, 8 * j + o, k as nat),
{
    let b = s[j] as u64;
    lemma_word_bits(b, o, k);
    assert forall|i: int| 0 <= i < k implies #[trigger] bit64(b, o + i) == bit_at(s, (8 * j + o) + i)
        by {
        let p = 8 * j + o + i;
        assert(p / 8 == j && p % 8 == o + i);
    }
    lemma_word_bits_ext(b, o as int, s, 8 * j + o, k as nat);
}

pub proof fn lemma_or_is_add(v: u64, w: u64, sh: u64)
    requires
        sh < 64,
        v < (1u64 << sh),
    ensures
        (v | (w << sh)) as int == v as int + (w << sh) as int,
{
    assert((v | (w << sh)) as int == v as int + (w << sh) as int) by (bit_vector)
        requires
            sh < 64,
            v < (1u64 << sh),
    ;
}

/// Appends a run of `k` bits, read as `w`, above the `sh` bits already held in `v`.
proof fn lemma_append_bits(s: Seq<u8>, start: int, v: u64, sh: u64, w: u64, k: nat)
    requires
        sh + k <= 64,
        sh < 64,
        v as nat == bits_value(s, start, sh as nat),
        w as nat == bits_value(s, start + sh, k),
    ensures
        (v | (w << sh)) as nat == bits_value(s, start, (sh + k) as nat),
        ((v | (w << sh)) as nat) < pow2((sh + k) as nat),
{
    lemma_bits_value_bound(s, start, sh as nat);
    lemma_bits_value_bound(s, start + sh, k);
    lemma_bits_value_bound(s, start, (sh + k) as nat);
    assert(pow2(64) == 0x1_0000_0000_0000_0000) by {
        vstd::arithmetic::power2::lemma2_to64_rest();
    }
    lemma_pow2_strictly_increases(sh as nat, 64);
    lemma_u64_shl_is_mul(1u64, sh);
    lemma_or_is_add(v, w, sh);
    lemma_pow2_adds(sh as nat, k);
    if k < 64 - sh {
        lemma_pow2_strictly_increases((sh + k) as nat, 64);
    }
    assert(pow2(64) == 0x1_0000_0000_0000_0000) by {
        vstd::arithmetic::power2::lemma2_to64_rest();
    }
    assert((w as nat) * pow2(sh as nat) <= u64::MAX) by {
        vstd::arithmetic::mul::lemma_mul_inequality(w as int, pow2(k) as int - 1, pow2(sh as nat) as int);
        vstd::arithmetic::mul::lemma_mul_is_distributive_sub_other_way(pow2(sh as nat) as int, pow2(k) as int, 1);
        vstd::arithmetic::mul::lemma_mul_is_commutative(pow2(sh as nat) as int, pow2(k) as int);
    }
    lemma_u64_shl_is_mul(w, sh);
    lemma_bits_value_concat(s, start, sh as nat, k);
    vstd::arithmetic::mul::lemma_mul_is_commutative(w as int, pow2(sh as nat) as int);
}

/// Wraps a slice and enables reading arbitrary amounts of bits from that slice.
///
/// Bits are read in little-endian order: the least-significant bit of each byte is read first.
pub struct BitReader<'s> {
    idx: usize,
    source: &'s [u8],
}

impl<'s> BitReader<'s> {
    /// The input the reader walks.
    pub closed spec fn src(&self) -> Seq<u8> {
        self.source@
    }

    /// How many bits have been read so far.
    pub closed spec fn pos(&self) -> int {
        self.idx as int
    }

    /// The position lies within the input, whose bit count fits a `usize`.
    pub closed spec fn wf(&self) -> bool {
        &&& self.idx <= 8 * self.source@.len()
        &&& 8 * self.source@.len() <= usize::MAX
    }

    /// Number of bits of the input not read yet.
    pub open spec fn left(&self) -> int {
        8 * self.src().len() - self.pos()
    }

    pub fn new(source: &'s [u8]) -> (r: BitReader<'s>)
        requires
            8 * source@.len() <= usize::MAX,
        ensures
            r.wf(),
            r.src() == source@,
            r.pos() == 0,
    {
        BitReader { idx: 0, source }
    }

    pub fn bits_left(&self) -> (n: usize)
        requires
            self.wf(),
        ensures
            n == self.left(),
    {
        self.source.len() * 8 - self.idx
    }

    pub fn bits_read(&self) -> (n: usize)
        ensures
            n == self.pos(),
    {
        self.idx
    }

    /// Steps back over the last `n` bits read.
    pub fn return_bits(&mut self, n: usize)
        requires
            old(self).wf(),
            n <= old(self).pos(),
        ensures
            final(self).wf(),
            final(self).src() == old(self).src(),
            final(self).pos() == old(self).pos() - n,
    {
        self.idx = self.idx - n;
    }

    /// Reads the next `n` bits (at most 64). Returns `None`, and reads
    /// nothing, when `n` exceeds 64 or fewer than `n` bits are left.
    pub fn get_bits(&mut self, n: usize) -> (r: Option<u64>)
        requires
            old(self).wf(),
            n == 0 ==> old(self).left() > 0,
        ensures
            final(self).wf(),
            final(self).src() == old(self).src(),
            (n > 64 || old(self).left() < n) ==> r is None && final(self).pos() == old(self).pos(),
            (n <= 64 && n <= old(self).left()) ==> {
                &&& r == Some(bits_value(old(self).src(), old(self).pos(), n as nat) as u64)
                &&& final(self).pos() == old(self).pos() + n
            },
    {
        if n > 64 {
            return None;
        }
        if self.bits_left() < n {
            return None;
        }
        let ghost s = self.source@;
        let old_idx = self.idx;
        let bits_left_in_current_byte = 8 - (self.idx % 8);
        let bits_not_needed_in_current_byte = 8 - bits_left_in_current_byte;
        let j = self.idx / 8;
        let byte = self.source[j];
        let mut value: u64 = (byte as u64) >> (bits_not_needed_in_current_byte as u64);
        let ghost o = bits_not_needed_in_current_byte as u64;
        assert(8 * j + o == old_idx);
        if bits_left_in_current_byte >= n {
            assert((1u64 << (n as u64)) >= 1) by (bit_vector)
                requires n < 64;
            value = value & ((1u64 << (n as u64)) - 1);
            proof {
                lemma_byte_bits(s, j as int, o, n as u64);
            }
            self.idx = self.idx + n;
            return Some(value);
        }
        proof {
            let b = byte as u64;
            let k = bits_left_in_current_byte as u64;
            assert(b < 256);
            assert((b >> o) & (((1u64 << k) - 1) as u64) == b >> o) by (bit_vector)
                requires
                    b < 256,
                    o + k == 8,
            ;
            lemma_byte_bits(s, j as int, o, k);
        }
        self.idx = self.idx + bits_left_in_current_byte;
        let full_bytes_needed = (n - bits_left_in_current_byte) / 8;
        let bits_in_last_byte_needed = n - bits_left_in_current_byte - full_bytes_needed * 8;
        let mut bit_shift: usize = bits_left_in_current_byte;
        let mut done: usize = 0;
        while done < full_bytes_needed
            invariant
                s == self.source@,
                self.wf(),
                8 * s.len() <= usize::MAX,
                old_idx + n <= 8 * s.len(),
                n <= 64,
                done <= full_bytes_needed,
                bit_shift == bits_left_in_current_byte + 8 * done,
                bits_left_in_current_byte + 8 * full_bytes_needed + bits_in_last_byte_needed == n,
                self.idx == old_idx + bit_shift,
                self.idx % 8 == 0,
                value as nat == bits_value(s, old_idx as int, bit_shift as nat),
            decreases full_bytes_needed - done,
        {
            let jj = self.idx / 8;
            let b = self.source[jj];
            proof {
                lemma_byte_bits(s, jj as int, 0, 8);
                let bb = b as u64;
                assert((bb >> 0u64) & (((1u64 << 8u64) - 1) as u64) == bb) by (bit_vector)
                    requires bb < 256,
                ;
                assert(8 * jj == old_idx + bit_shift);
                lemma_append_bits(s, old_idx as int, value, bit_shift as u64, bb, 8);
            }
            value = value | ((b as u64) << (bit_shift as u64));
            self.idx = self.idx + 8;
            bit_shift = bit_shift + 8;
            done = done + 1;
        }
        if bits_in_last_byte_needed > 0 {
            let jj = self.idx / 8;
            let b = self.source[jj];
            assert((1u64 << (bits_in_last_byte_needed as u64)) >= 1) by (bit_vector)
                requires bits_in_last_byte_needed < 64;
            let val_last_byte = (b as u64) & ((1u64 << (bits_in_last_byte_needed as u64)) - 1);
            proof {
                assert(8 * jj == old_idx + bit_shift);
                lemma_byte_bits(s, jj as int, 0, bits_in_last_byte_needed as u64);
                assert((b as u64) >> 0u64 == b as u64) by (bit_vector);
                lemma_append_bits(
                    s,
                    old_idx as int,
                    value,
                    bit_shift as u64,
                    val_last_byte,
                    bits_in_last_byte_needed as nat,
                );
            }
            value = value | (val_last_byte << (bit_shift as u64));
            self.idx = self.idx + bits_in_last_byte_needed;
        }
        Some(value)
    }
}

proof fn lemma_bit_or(v: u64, w: u64, q: u64)
    requires
        q < 64,
    ensures
        ((v | w) >> q) & 1u64 == ((v >> q) & 1u64) | ((w >> q) & 1u64),
        ((v >> q) & 1u64) <= 1,
        ((w >> q) & 1u64) <= 1,
{
    assert(((v | w) >> q) & 1u64 == ((v >> q) & 1u64) | ((w >> q) & 1u64)) by (bit_vector);
    assert(((v >> q) & 1u64) <= 1) by (bit_vector);
    assert(((w >> q) & 1u64) <= 1) by (bit_vector);
    assert(0u64 | 0u64 == 0u64 && 0u64 | 1u64 == 1u64 && 1u64 | 0u64 == 1u64) by (bit_vector);
}

proof fn lemma_bit_shifted_byte(b: u64, k: u64, q: u64)
    requires
        b < 256,
        k < 8,
        q < 64,
    ensures
        ((b << ((8 * k) as u64)) >> q) & 1u64 == if 8 * k <= q && q < 8 * k + 8 {
            (b >> ((q - 8 * k) as u64)) & 1u64
        } else {
            0u64
        },
{
    assert(((b << ((8 * k) as u64)) >> q) & 1u64 == if 8 * k <= q && q < 8 * k + 8 {
        (b >> ((q - 8 * k) as u64)) & 1u64
    } else {
        0u64
    }) by (bit_vector)
        requires
            b < 256,
            k < 8,
            q < 64,
    ;
}

proof fn lemma_bit_shl(x: u64, c: u64, q: u64)
    requires
        c < 64,
        q < 64,
    ensures
        ((x << c) >> q) & 1u64 == if q >= c {
            (x >> ((q - c) as u64)) & 1u64
        } else {
            0u64
        },
{
    assert(((x << c) >> q) & 1u64 == if q >= c {
        (x >> ((q - c) as u64)) & 1u64
    } else {
        0u64
    }) by (bit_vector)
        requires
            c < 64,
            q < 64,
    ;
}

/// Reads `count` bytes from `start` as a little-endian word; the bytes above
/// them are zero.
fn load_le_u64(src: &[u8], start: usize, count: usize) -> (v: u64)
    requires
        start + count <= src@.len(),
        count <= 8,
    ensures
        forall|q: int|
            0 <= q < 64 ==> #[trigger] bit64(v, q) == if q < 8 * count {
                bit_at(src@, 8 * start + q)
            } else {
                0
            },
{
    let mut v: u64 = 0;
    let mut k: usize = 0;
    let len = src.len();
    assert forall|q: int| 0 <= q < 64 implies #[trigger] bit64(v, q) == 0 by {
        let qq = q as u64;
        assert((0u64 >> qq) & 1u64 == 0) by (bit_vector);
    }
    while k < count
        invariant
            len == src@.len(),
            start + count <= src@.len(),
            count <= 8,
            k <= count,
            forall|q: int|
                0 <= q < 64 ==> #[trigger] bit64(v, q) == if q < 8 * k {
                    bit_at(src@, 8 * start + q)
                } else {
                    0
                },
        decreases count - k,
    {
        let b = src[start + k];
        let sh: u64 = (8 * k) as u64;
        let w = (b as u64) << sh;
        let nv = v | w;
        assert forall|q: int| 0 <= q < 64 implies #[trigger] bit64(nv, q) == if q < 8 * (k + 1) {
            bit_at(src@, 8 * start + q)
        } else {
            0
        } by {
            let qq = q as u64;
            lemma_bit_or(v, w, qq);
            lemma_bit_shifted_byte(b as u64, k as u64, qq);
            assert(sh == ((8 * (k as u64)) as u64));
            let bv = (v >> qq) & 1u64;
            let bw = (w >> qq) & 1u64;
            assert(bit64(nv, q) == (bv | bw) as nat);
            assert(bit64(v, q) == bv as nat);
            if q < 8 * k {
                assert(bw == 0);
                assert(bv | 0u64 == bv) by (bit_vector);
            } else if q < 8 * k + 8 {
                assert(bv == 0);
                assert(0u64 | bw == bw) by (bit_vector);
                let p = 8 * start + q;
                assert(p / 8 == start + k && p % 8 == q - 8 * k);
                assert(bw == ((b as u64) >> ((q - 8 * k) as u64)) & 1u64);
            } else {
                assert(bw == 0 && bv == 0);
                assert(0u64 | 0u64 == 0u64) by (bit_vector);
            }
        }
        v = nv;
        k = k + 1;
    }
    v
}

/// Reads bits from the end of a slice, as required by Zstd's reverse-encoded streams.
///
/// Bytes are treated as little-endian, but within each byte bits are read from the most
/// significant bit down to the least significant bit.
///
/// The reader can go on past the start of its input, reading zeros, as long
/// as its position stays within the range of `isize`, in which it reports
/// the bits remaining.
pub struct BitReaderReversed<'s> {
    index: usize,
    bits_consumed: u8,
    extra_bits: usize,
    source: &'s [u8],
    bit_container: u64,
}

impl<'s> BitReaderReversed<'s> {
    /// The input the reader walks.
    pub closed spec fn src(&self) -> Seq<u8> {
        self.source@
    }

    /// Bits not yet read: the reader's position counted from the start of the
    /// input; negative once it has gone past the start.
    pub closed spec fn remaining(&self) -> int {
        8 * self.index + 64 - self.bits_consumed - self.extra_bits
    }

    /// The lowest position from which the reader may still read: below it
    /// the zeros filled in past the start would no longer fit `isize`.
    pub open spec fn read_floor(&self) -> int {
        8 * self.src().len() + 128 - isize::MAX
    }

    /// Bits of the current word already taken.
    pub closed spec fn consumed(&self) -> int {
        self.bits_consumed as int
    }

    /// The reader once `n` more bits of the word in hand are marked read.
    pub closed spec fn after_reading(&self, n: nat) -> BitReaderReversed<'s> {
        BitReaderReversed {
            index: self.index,
            bits_consumed: (self.bits_consumed + n) as u8,
            extra_bits: self.extra_bits,
            source: self.source,
            bit_container: self.bit_container,
        }
    }

    /// The unread bits of the word in hand are the input's bits just below
    /// the reader's position.
    pub closed spec fn wf(&self) -> bool {
        &&& self.index <= self.source@.len()
        &&& self.bits_consumed <= 64
        &&& 8 * self.source@.len() + 64 <= isize::MAX
        &&& self.index > 0 ==> self.extra_bits == 0
        &&& self.remaining() <= 8 * self.source@.len()
        &&& 8 * self.source@.len() + 64 + self.extra_bits <= isize::MAX
        &&& forall|q: int|
            0 <= q < 64 - self.bits_consumed ==> #[trigger] bit64(self.bit_container, q)
                == bit_at(self.source@, 8 * self.index - self.extra_bits + q)
    }

    /// Number of bits remaining before the reader has consumed the whole input.
    pub fn bits_remaining(&self) -> (r: isize)
        requires
            self.wf(),
        ensures
            r == self.remaining(),
    {
        self.index as isize * 8 + (64 - self.bits_consumed as isize) - self.extra_bits as isize
    }

    pub fn new(source: &'s [u8]) -> (r: BitReaderReversed<'s>)
        requires
            8 * source@.len() + 64 <= isize::MAX,
        ensures
            r.wf(),
            r.src() == source@,
            r.remaining() == 8 * source@.len(),
            r.consumed() == 64,
    {
        BitReaderReversed {
            index: source.len(),
            bits_consumed: 64,
            extra_bits: 0,
            source,
            bit_container: 0,
        }
    }

    fn refill(&mut self)
        requires
            old(self).wf(),
            old(self).remaining() >= old(self).read_floor(),
        ensures
            final(self).wf(),
            final(self).src() == old(self).src(),
            final(self).remaining() == old(self).remaining(),
            old(self).consumed() >= 8 ==> final(self).consumed() < 8,
            old(self).consumed() < 8 ==> final(self).consumed() == old(self).consumed(),
    {
        let bytes_consumed = self.bits_consumed as usize / 8;
        if bytes_consumed == 0 {
            return;
        }
        let ghost s = self.source@;
        if self.index >= bytes_consumed {
            self.index = self.index - bytes_consumed;
            let c = self.bits_consumed;
            assert(c & 7u8 == c % 8) by (bit_vector);
            self.bits_consumed = self.bits_consumed & 7;
            self.bit_container = load_le_u64(self.source, self.index, 8);
        } else if self.index > 0 {
            let container = if self.source.len() >= 8 {
                load_le_u64(self.source, 0, 8)
            } else {
                load_le_u64(self.source, 0, self.source.len())
            };
            let ghost c0 = container;
            assert forall|q: int| 0 <= q < 64 implies #[trigger] bit64(c0, q) == bit_at(s, q) by {}
            self.bits_consumed = self.bits_consumed - 8 * (self.index as u8);
            self.index = 0;
            let sh = self.bits_consumed;
            self.bit_container = container << sh;
            self.extra_bits = self.extra_bits + sh as usize;
            self.bits_consumed = 0;
            assert forall|q: int| 0 <= q < 64 implies #[trigger] bit64(self.bit_container, q)
                == bit_at(s, 0 - self.extra_bits + q) by {
                lemma_bit_shl(c0, sh as u64, q as u64);
                if q >= sh {
                    assert(bit64(c0, q - sh) == bit_at(s, q - sh));
                }
            }
        } else if self.bits_consumed < 64 {
            let ghost c0 = self.bit_container;
            let ghost e0 = self.extra_bits;
            let ghost k0 = self.bits_consumed;
            let sh = self.bits_consumed;
            self.bit_container = self.bit_container << sh;
            self.extra_bits = self.extra_bits + sh as usize;
            self.bits_consumed = 0;
            assert forall|q: int| 0 <= q < 64 implies #[trigger] bit64(self.bit_container, q)
                == bit_at(s, 0 - self.extra_bits + q) by {
                lemma_bit_shl(c0, sh as u64, q as u64);
                if q >= sh {
                    assert(bit64(c0, q - sh) == bit_at(s, 0 - e0 + (q - sh)));
                }
            }
        } else {
            self.extra_bits = self.extra_bits + self.bits_consumed as usize;
            self.bits_consumed = 0;
            self.bit_container = 0;
            assert forall|q: int| 0 <= q < 64 implies #[trigger] bit64(self.bit_container, q)
                == bit_at(s, 0 - self.extra_bits + q) by {
                let qq = q as u64;
                assert((0u64 >> qq) & 1u64 == 0) by (bit_vector);
            }
        }
    }

    /// Read `n` bits from the source. At most 56 bits can be read in one call.
    ///
    /// Once the input is exhausted, the reader returns zero bits.
    pub fn get_bits(&mut self, n: u8) -> (r: u64)
        requires
            old(self).wf(),
            n <= 56,
            old(self).remaining() >= old(self).read_floor(),
        ensures
            final(self).wf(),
            final(self).src() == old(self).src(),
            final(self).remaining() == old(self).remaining() - n,
            r as nat == bits_value(old(self).src(), old(self).remaining() - n, n as nat),
            old(self).consumed() + n <= 64 ==> *final(self) == old(self).after_reading(n as nat),
    {
        if self.bits_consumed + n > 64 {
            self.refill();
        }
        let value = self.peek_bits(n);
        self.consume(n);
        value
    }

    /// The next `n` bits, without reading them.
    pub fn peek_bits(&mut self, n: u8) -> (r: u64)
        requires
            old(self).wf(),
            n < 64,
            old(self).consumed() + n <= 64,
        ensures
            *final(self) == *old(self),
            r as nat == bits_value(old(self).src(), old(self).remaining() - n, n as nat),
    {
        if n == 0 {
            return 0;
        }
        assert((1u64 << (n as u64)) >= 1) by (bit_vector)
            requires n < 64;
        let mask = (1u64 << n) - 1u64;
        let shift_by = 64 - self.bits_consumed - n;
        proof {
            lemma_word_bits(self.bit_container, shift_by as u64, n as u64);
            let base = 8 * self.index - self.extra_bits;
            assert forall|i: int| 0 <= i < n implies #[trigger] bit64(self.bit_container, shift_by + i)
                == bit_at(self.source@, (base + shift_by) + i) by {
                assert(bit64(self.bit_container, shift_by + i) == bit_at(self.source@, base + (shift_by + i)));
            }
            lemma_word_bits_ext(self.bit_container, shift_by as int, self.source@, base + shift_by, n as nat);
        }
        (self.bit_container >> shift_by) & mask
    }

    /// Marks the next `n` bits as read.
    pub fn consume(&mut self, n: u8)
        requires
            old(self).wf(),
            old(self).consumed() + n <= 64,
        ensures
            final(self).wf(),
            final(self).src() == old(self).src(),
            final(self).remaining() == old(self).remaining() - n,
            final(self).consumed() == old(self).consumed() + n,
            *final(self) == old(self).after_reading(n as nat),
    {
        self.bits_consumed = self.bits_consumed + n;
    }
}

} // verus!
