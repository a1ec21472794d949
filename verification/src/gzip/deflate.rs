//! DEFLATE blocks (RFC 1951), decoded only as far as their literals.
//!
//! Stored blocks hand over their bytes; Huffman blocks are decoded symbol by
//! symbol, literal bytes are kept, and length/distance pairs are read with
//! their extra bits and passed over without copying anything.
use vstd::prelude::*;
use vstd::arithmetic::power2::{pow2, lemma2_to64, lemma_pow2_pos, lemma_pow2_unfold};
use crate::zstd::bit_io::{bit_at, bits_value};
use crate::zstd::huffman::{count_bits, lemma_count_bits_mono, lemma_symbol_of_rank};
use super::bitstream::BitReader;
use crate::error::{ZiftError, ZiftErrorKind};

verus! {

/// The longest code length DEFLATE allows.
pub const MAX_BITS: usize = 15;

/// How many symbols among the first `m` have a code length from 1 up to,
/// but not including, `l`.
pub open spec fn shorter_codes(lens: Seq<u8>, l: nat, m: int) -> nat
    decreases m,
{
    if m <= 0 {
        0
    } else {
        shorter_codes(lens, l, m - 1) + if 1 <= lens[m - 1] && lens[m - 1] < l {
            1nat
        } else {
            0
        }
    }
}

/// The first canonical code of length `l`: the codes of each length follow
/// those of the length before, doubled.
pub open spec fn first_code(lens: Seq<u8>, l: nat) -> nat
    decreases l,
{
    if l <= 1 {
        0
    } else {
        2 * (first_code(lens, (l - 1) as nat) + count_bits(lens, (l - 1) as nat, lens.len() as int))
    }
}

/// The symbol of code length `l` with `r` symbols of that length before it.
pub open spec fn symbol_of_rank(lens: Seq<u8>, l: nat, r: nat) -> nat {
    choose|s: nat| s < lens.len() && lens[s as int] == l && count_bits(lens, l, s as int) == r
}

/// Decoding the canonical Huffman code of `lens` from bit `p` of `d`, with
/// the first `l - 1` bits read giving `code` (first bit most significant):
/// the shortest length whose value falls among the codes of that length
/// gives the symbol; the symbol and the position after its code.
pub open spec fn canonical_decode(lens: Seq<u8>, d: Seq<u8>, p: nat, l: nat, code: nat) -> Option<(nat, nat)>
    decreases 16 - l,
{
    if l == 0 || l > MAX_BITS {
        None
    } else if p + l > 8 * d.len() {
        None
    } else {
        let c = 2 * code + bit_at(d, p + l - 1);
        let f = first_code(lens, l);
        if f <= c && c < f + count_bits(lens, l, lens.len() as int) {
            Some((symbol_of_rank(lens, l, (c - f) as nat), p + l))
        } else {
            canonical_decode(lens, d, p, l + 1, c)
        }
    }
}

/// The symbol whose code starts at bit `p`, and the position after it.
pub open spec fn decode_spec(lens: Seq<u8>, d: Seq<u8>, p: nat) -> Option<(nat, nat)> {
    canonical_decode(lens, d, p, 1, 0)
}

/// Code lengths a table can be built from: at most 320 of them, none above 15.
pub open spec fn lens_ok(lens: Seq<u8>) -> bool {
    &&& lens.len() <= 320
    &&& forall|s: int| 0 <= s < lens.len() ==> #[trigger] lens[s] <= MAX_BITS
}

proof fn lemma_shorter_step(lens: Seq<u8>, l: nat, m: int)
    requires
        l >= 1,
        0 <= m <= lens.len(),
    ensures
        shorter_codes(lens, l + 1, m) == shorter_codes(lens, l, m) + count_bits(lens, l, m),
    decreases m,
{
    if m > 0 {
        lemma_shorter_step(lens, l, m - 1);
    }
}

proof fn lemma_shorter_bound(lens: Seq<u8>, l: nat, m: int)
    requires
        0 <= m <= lens.len(),
    ensures
        shorter_codes(lens, l, m) + (if l >= 1 {
            count_bits(lens, l, m)
        } else {
            0
        }) <= m,
    decreases m,
{
    if m > 0 {
        lemma_shorter_bound(lens, l, m - 1);
    }
}

proof fn lemma_shorter_one(lens: Seq<u8>, m: int)
    ensures
        shorter_codes(lens, 1, m) == 0,
    decreases m,
{
    if m > 0 {
        lemma_shorter_one(lens, m - 1);
    }
}

proof fn lemma_shorter_mono(lens: Seq<u8>, l1: nat, l2: nat, m: int)
    requires
        l1 <= l2,
    ensures
        shorter_codes(lens, l1, m) <= shorter_codes(lens, l2, m),
    decreases m,
{
    if m > 0 {
        lemma_shorter_mono(lens, l1, l2, m - 1);
    }
}

/// The slot of a symbol's code lies in the slots of its code length.
proof fn lemma_slot_in_group(lens: Seq<u8>, q: int, n: int)
    requires
        0 <= q < n,
        n == lens.len(),
        lens[q] >= 1,
    ensures
        shorter_codes(lens, lens[q] as nat, n) <= shorter_codes(lens, lens[q] as nat, n) + count_bits(lens, lens[q] as nat, q)
            < shorter_codes(lens, (lens[q] + 1) as nat, n),
{
    let l = lens[q] as nat;
    lemma_count_bits_mono(lens, l, q + 1, n);
    lemma_shorter_step(lens, l, n);
}

proof fn lemma_first_code_bound(lens: Seq<u8>, l: nat)
    requires
        1 <= l <= 16,
    ensures
        first_code(lens, l) <= shorter_codes(lens, l, lens.len() as int) * pow2(l),
    decreases l,
{
    if l > 1 {
        let k = (l - 1) as nat;
        lemma_first_code_bound(lens, k);
        lemma_shorter_step(lens, k, lens.len() as int);
        lemma_pow2_unfold(l);
        let a = shorter_codes(lens, k, lens.len() as int);
        let c = count_bits(lens, k, lens.len() as int);
        lemma_pow2_pos(k);
        assert(2 * (first_code(lens, k) + c) <= (a + c) * pow2(l)) by (nonlinear_arith)
            requires
                first_code(lens, k) <= a * pow2(k),
                pow2(l) == 2 * pow2(k),
                pow2(k) >= 1,
        ;
    }
}

/// Two symbols of one code length have different ranks.
proof fn lemma_rank_unique(lens: Seq<u8>, l: nat, s1: int, s2: int)
    requires
        0 <= s1 < s2 <= lens.len(),
        lens[s1] == l,
    ensures
        count_bits(lens, l, s1) < count_bits(lens, l, s2),
{
    lemma_count_bits_mono(lens, l, s1 + 1, s2);
}

proof fn lemma_symbol_of_rank_is(lens: Seq<u8>, l: nat, s: int)
    requires
        0 <= s < lens.len(),
        lens[s] == l,
    ensures
        symbol_of_rank(lens, l, count_bits(lens, l, s)) == s,
{
    let r = count_bits(lens, l, s);
    assert((s as nat) < lens.len() && lens[s] == l && count_bits(lens, l, s) == r);
    let t = symbol_of_rank(lens, l, r);
    if t != s {
        if (t as int) < s {
            lemma_rank_unique(lens, l, t as int, s);
        } else {
            lemma_rank_unique(lens, l, s, t as int);
        }
    }
}

/// A canonical Huffman code: how many codes each length has, and the
/// symbols ordered by code length, then by symbol.
pub struct HuffmanCode {
    count: Vec<u16>,
    symbol: Vec<u16>,
    lens: Ghost<Seq<u8>>,
}

impl HuffmanCode {
    /// The code lengths the table was built from.
    pub closed spec fn lens(&self) -> Seq<u8> {
        self.lens@
    }

    /// The table decodes the code of its code lengths.
    pub closed spec fn wf(&self) -> bool {
        self.decodes(self.lens@)
    }

    /// The table decodes the code of `lens`.
    pub closed spec fn decodes(&self, lens: Seq<u8>) -> bool {
        &&& lens_ok(lens)
        &&& self.count@.len() == 16
        &&& forall|l: int| 1 <= l <= 15 ==> #[trigger] self.count@[l] == count_bits(lens, l as nat, lens.len() as int)
        &&& self.symbol@.len() == lens.len()
        &&& forall|l: int, r: int|
            1 <= l <= 15 && 0 <= r < count_bits(lens, l as nat, lens.len() as int)
                ==> #[trigger] self.symbol@[shorter_codes(lens, l as nat, lens.len() as int) + r]
                == symbol_of_rank(lens, l as nat, r as nat)
    }

    /// Builds the table of the code lengths `lens`.
    pub fn build(lens: &[u8]) -> (h: HuffmanCode)
        requires
            lens_ok(lens@),
        ensures
            h.wf(),
            h.lens() == lens@,
    {
        let ghost ls = lens@;
        let ghost n = ls.len() as int;
        let mut count: Vec<u16> = Vec::new();
        let mut l: usize = 0;
        while l < 16
            invariant
                l <= 16,
                count@.len() == l,
                forall|k: int| 0 <= k < l ==> #[trigger] count@[k] == 0,
            decreases 16 - l,
        {
            count.push(0);
            l = l + 1;
        }
        let mut s: usize = 0;
        while s < lens.len()
            invariant
                ls == lens@,
                n == ls.len(),
                lens_ok(ls),
                s <= n,
                count@.len() == 16,
                forall|k: int| 1 <= k <= 15 ==> #[trigger] count@[k] == count_bits(ls, k as nat, s as int),
            decreases n - s,
        {
            let len = lens[s] as usize;
            if len != 0 {
                proof {
                    lemma_count_bits_mono(ls, len as nat, 0, s as int);
                }
                let c = count[len];
                count.set(len, c + 1);
            }
            s = s + 1;
        }
        let mut offs: Vec<u16> = Vec::new();
        offs.push(0);
        offs.push(0);
        let mut k: usize = 1;
        proof {
            lemma_shorter_bound(ls, 1, n);
            lemma_shorter_one(ls, n);
        }
        while k < 15
            invariant
                ls == lens@,
                n == ls.len(),
                lens_ok(ls),
                1 <= k <= 15,
                count@.len() == 16,
                forall|j: int| 1 <= j <= 15 ==> #[trigger] count@[j] == count_bits(ls, j as nat, n),
                offs@.len() == k + 1,
                forall|j: int| 1 <= j <= k ==> #[trigger] offs@[j] == shorter_codes(ls, j as nat, n),
            decreases 15 - k,
        {
            proof {
                lemma_shorter_step(ls, k as nat, n);
                lemma_shorter_bound(ls, (k + 1) as nat, n);
            }
            let next = offs[k] + count[k];
            offs.push(next);
            k = k + 1;
        }
        let mut symbol: Vec<u16> = Vec::new();
        let mut t: usize = 0;
        while t < lens.len()
            invariant
                ls == lens@,
                n == ls.len(),
                t <= n,
                symbol@.len() == t,
            decreases n - t,
        {
            symbol.push(0);
            t = t + 1;
        }
        let mut s: usize = 0;
        while s < lens.len()
            invariant
                ls == lens@,
                n == ls.len(),
                lens_ok(ls),
                s <= n,
                count@.len() == 16,
                forall|j: int| 1 <= j <= 15 ==> #[trigger] count@[j] == count_bits(ls, j as nat, n),
                offs@.len() == 16,
                forall|j: int| 1 <= j <= 15 ==> #[trigger] offs@[j] == shorter_codes(ls, j as nat, n) + count_bits(
                    ls,
                    j as nat,
                    s as int,
                ),
                symbol@.len() == n,
                forall|q: int|
                    0 <= q < s && ls[q] >= 1 ==> #[trigger] symbol@[(shorter_codes(ls, ls[q] as nat, n) + count_bits(
                        ls,
                        ls[q] as nat,
                        q,
                    )) as int] == q,
            decreases n - s,
        {
            let len = lens[s] as usize;
            if len != 0 {
                let o = offs[len] as usize;
                proof {
                    lemma_count_bits_mono(ls, len as nat, s + 1, n);
                    lemma_shorter_bound(ls, len as nat, n);
                    lemma_shorter_step(ls, len as nat, n);
                }
                let ghost old_symbol = symbol@;
                symbol.set(o, s as u16);
                offs.set(len, (o + 1) as u16);
                proof {
                    assert forall|q: int|
                        0 <= q < s + 1 && ls[q] >= 1 implies #[trigger] symbol@[(shorter_codes(ls, ls[q] as nat, n)
                        + count_bits(ls, ls[q] as nat, q)) as int] == q by {
                        if q < s {
                            let lq = ls[q] as nat;
                            let slot = (shorter_codes(ls, lq, n) + count_bits(ls, lq, q)) as int;
                            assert(old_symbol[slot] == q);
                            lemma_shorter_bound(ls, lq, n);
                            lemma_count_bits_mono(ls, lq, q + 1, n);
                            if lq == len {
                                lemma_rank_unique(ls, lq, q, s as int);
                            } else {
                                lemma_slot_in_group(ls, q, n);
                                lemma_slot_in_group(ls, s as int, n);
                                if lq < len {
                                    lemma_shorter_mono(ls, lq + 1, len as nat, n);
                                } else {
                                    lemma_shorter_mono(ls, (len + 1) as nat, lq, n);
                                }
                            }
                            assert(symbol@[slot] == old_symbol[slot]);
                        }
                    }
                }
            }
            s = s + 1;
        }
        proof {
            assert forall|l: int, r: int|
                1 <= l <= 15 && 0 <= r < count_bits(ls, l as nat, n) implies #[trigger] symbol@[shorter_codes(
                ls,
                l as nat,
                n,
            ) + r] == symbol_of_rank(ls, l as nat, r as nat) by {
                lemma_symbol_of_rank(ls, l as nat, r as nat, n);
                let q = choose|q: int| 0 <= q < n && ls[q] == l as nat && #[trigger] count_bits(ls, l as nat, q) == r as nat;
                lemma_symbol_of_rank_is(ls, l as nat, q);
                assert(symbol@[(shorter_codes(ls, ls[q] as nat, n) + count_bits(ls, ls[q] as nat, q)) as int] == q);
            }
        }
        HuffmanCode { count, symbol, lens: Ghost(ls) }
    }

    /// Decodes the symbol whose code comes next in `br`.
    pub fn decode(&self, br: &mut BitReader) -> (r: Option<u16>)
        requires
            self.wf(),
            old(br).wf(),
        ensures
            final(br).wf(),
            final(br).src() == old(br).src(),
            match decode_spec(self.lens(), old(br).src(), old(br).pos()) {
                None => r is None,
                Some((s, p)) => r == Some(s as u16) && final(br).pos() == p,
            },
    {
        let ghost lens = self.lens@;
        let ghost n = lens.len() as int;
        let ghost d = br.src();
        let ghost p0 = br.pos();
        let ghost mut sc: nat = 0;
        let mut code: u32 = 0;
        let mut first: u32 = 0;
        let mut index: u32 = 0;
        let mut len: usize = 1;
        proof {
            assert(pow2(16) == 0x10000) by {
                lemma2_to64();
            }
            assert(pow2(0) == 1) by {
                lemma2_to64();
            }
            lemma_shorter_one(lens, n);
        }
        while len <= 15
            invariant
                d == old(br).src(),
                p0 == old(br).pos(),
                self.wf(),
                lens == self.lens@,
                n == lens.len(),
                br.wf(),
                br.src() == d,
                1 <= len <= 16,
                br.pos() == p0 + len - 1,
                code == 2 * sc,
                sc < pow2((len - 1) as nat),
                pow2(16) == 0x10000,
                canonical_decode(lens, d, p0, len as nat, sc) == decode_spec(lens, d, p0),
                first == first_code(lens, len as nat),
                index == shorter_codes(lens, len as nat, n),
            decreases 16 - len,
        {
            let bit = match br.get_bit() {
                Some(b) => b,
                None => return None,
            };
            proof {
                crate::zstd::bit_io::lemma_bits_value_bound(d, p0 + len - 1, 1);
                reveal_with_fuel(bits_value, 2);
                assert(pow2(1) == 2) by {
                    lemma2_to64();
                }
                lemma_pow2_unfold(len as nat);
                crate::zstd::fse::lemma_pow2_increases_le(len as nat, 16);
                lemma_first_code_bound(lens, len as nat);
                lemma_shorter_bound(lens, len as nat, n);
                assert(first <= 320 * 0x10000) by (nonlinear_arith)
                    requires
                        first <= shorter_codes(lens, len as nat, n) * pow2(len as nat),
                        shorter_codes(lens, len as nat, n) <= 320,
                        pow2(len as nat) <= 0x10000,
                ;
            }
            code = code + bit;
            let ghost c = code as nat;
            let count = self.count[len] as u32;
            if first <= code && code < first + count {
                proof {
                    lemma_shorter_bound(lens, len as nat, n);
                }
                let at = (index + (code - first)) as usize;
                return Some(self.symbol[at]);
            }
            proof {
                lemma_shorter_step(lens, len as nat, n);
                lemma_shorter_bound(lens, (len + 1) as nat, n);
                sc = c;
            }
            index = index + count;
            first = 2 * (first + count);
            code = 2 * code;
            len = len + 1;
        }
        None
    }
}

/// A decoded code starts at `p`, ends after it and within the input, and
/// names a symbol of the code.
proof fn lemma_decode_advances(lens: Seq<u8>, d: Seq<u8>, p: nat, l: nat, code: nat)
    requires
        canonical_decode(lens, d, p, l, code) is Some,
    ensures
        p < canonical_decode(lens, d, p, l, code)->Some_0.1 <= 8 * d.len(),
        canonical_decode(lens, d, p, l, code)->Some_0.0 < lens.len(),
    decreases 16 - l,
{
    let c = 2 * code + bit_at(d, p + l - 1);
    let f = first_code(lens, l);
    if f <= c && c < f + count_bits(lens, l, lens.len() as int) {
        let r = (c - f) as nat;
        lemma_symbol_of_rank(lens, l, r, lens.len() as int);
        let q = choose|q: int| 0 <= q < lens.len() && lens[q] == l && #[trigger] count_bits(lens, l, q) == r;
        lemma_symbol_of_rank_is(lens, l, q);
    } else {
        lemma_decode_advances(lens, d, p, l + 1, c);
    }
}

/// Extra bits after a length symbol `257 + s`.
pub open spec fn length_extra(s: nat) -> nat {
    if s < 8 || s == 28 {
        0
    } else {
        ((s - 4) / 4) as nat
    }
}

/// Extra bits after a distance symbol `s`.
pub open spec fn dist_extra(s: nat) -> nat {
    if s < 4 {
        0
    } else {
        ((s - 2) / 2) as nat
    }
}

/// The literals of a Huffman-coded block body from bit `p`, appended to
/// `acc`, and where the body ends: literal symbols give their byte, a
/// length symbol and the distance after it are read with their extra bits
/// and give nothing, and the end-of-block symbol ends the body.
pub open spec fn codes_spec(lit: Seq<u8>, dist: Seq<u8>, d: Seq<u8>, p: nat, acc: Seq<u8>) -> Result<(Seq<u8>, nat), ZiftErrorKind>
    decreases 8 * d.len() - p,
{
    match decode_spec(lit, d, p) {
        None => Err(ZiftErrorKind::InvalidData { offset: p / 8 }),
        Some((sym, p1)) => if p1 <= p || p1 > 8 * d.len() {
            Err(ZiftErrorKind::InvalidData { offset: p / 8 })
        } else if sym < 256 {
            codes_spec(lit, dist, d, p1, acc.push(sym as u8))
        } else if sym == 256 {
            Ok((acc, p1))
        } else if sym >= 257 + 29 {
            Err(ZiftErrorKind::InvalidData { offset: p / 8 })
        } else {
            let p2 = p1 + length_extra((sym - 257) as nat);
            if p2 > 8 * d.len() {
                Err(ZiftErrorKind::InvalidData { offset: p1 / 8 })
            } else {
                match decode_spec(dist, d, p2) {
                    None => Err(ZiftErrorKind::InvalidData { offset: p2 / 8 }),
                    Some((ds, p3)) => if ds >= 30 || p3 <= p2 {
                        Err(ZiftErrorKind::InvalidData { offset: p2 / 8 })
                    } else {
                        let p4 = p3 + dist_extra(ds);
                        if p4 > 8 * d.len() {
                            Err(ZiftErrorKind::InvalidData { offset: p3 / 8 })
                        } else {
                            codes_spec(lit, dist, d, p4, acc)
                        }
                    }
                }
            }
        }
    }
}

/// The bytes of a stored block whose header ends at bit `p`, and where the
/// block ends: after the byte boundary, a 2-byte length and its one's
/// complement, then that many bytes.
pub open spec fn stored_spec(d: Seq<u8>, p: nat) -> Result<(Seq<u8>, nat), ZiftErrorKind> {
    let b: int = (super::bitstream::align_up(p) / 8) as int;
    if b + 4 > d.len() {
        Err(ZiftErrorKind::InvalidData { offset: b as nat })
    } else {
        let len: int = d[b] as int + 256 * d[b + 1] as int;
        let nlen: int = d[b + 2] as int + 256 * d[b + 3] as int;
        if len + nlen != 0xffff {
            Err(ZiftErrorKind::InvalidData { offset: b as nat })
        } else if b + 4 + len > d.len() {
            Err(ZiftErrorKind::InvalidData { offset: (b + 4) as nat })
        } else {
            Ok((d.subrange(b + 4, b + 4 + len), (8 * (b + 4 + len)) as nat))
        }
    }
}

/// The code lengths of the fixed literal/length code.
pub open spec fn fixed_lit_lens() -> Seq<u8> {
    Seq::new(
        288,
        |i: int|
            if i < 144 {
                8u8
            } else if i < 256 {
                9u8
            } else if i < 280 {
                7u8
            } else {
                8u8
            },
    )
}

/// The code lengths of the fixed distance code.
pub open spec fn fixed_dist_lens() -> Seq<u8> {
    Seq::new(30, |i: int| 5u8)
}

/// Where symbol `j` of the code-length code stands in the order the
/// dynamic header lists them.
pub open spec fn cl_order_pos(j: int) -> int {
    if j == 16 {
        0
    } else if j == 17 {
        1
    } else if j == 18 {
        2
    } else if j == 0 {
        3
    } else if j == 8 {
        4
    } else if j == 7 {
        5
    } else if j == 9 {
        6
    } else if j == 6 {
        7
    } else if j == 10 {
        8
    } else if j == 5 {
        9
    } else if j == 11 {
        10
    } else if j == 4 {
        11
    } else if j == 12 {
        12
    } else if j == 3 {
        13
    } else if j == 13 {
        14
    } else if j == 2 {
        15
    } else if j == 14 {
        16
    } else if j == 1 {
        17
    } else {
        18
    }
}

/// The code-length code lengths that `ncode` 3-bit fields from bit `p` give.
pub open spec fn cl_lens_spec(d: Seq<u8>, p: nat, ncode: nat) -> Seq<u8> {
    Seq::new(
        19,
        |j: int|
            if cl_order_pos(j) < ncode {
                bits_value(d, p as int + 3 * cl_order_pos(j), 3) as u8
            } else {
                0u8
            },
    )
}

/// The Kraft sum of the first `m` code lengths, in units of `2^-15`.
pub open spec fn kraft(lens: Seq<u8>, m: int) -> nat
    decreases m,
{
    if m <= 0 {
        0
    } else {
        kraft(lens, m - 1) + if 1 <= lens[m - 1] <= MAX_BITS {
            pow2((MAX_BITS - lens[m - 1]) as nat)
        } else {
            0
        }
    }
}

/// A code usable in a dynamic block: not over-subscribed, and complete
/// unless it has no code longer than one bit.
pub open spec fn code_ok(lens: Seq<u8>) -> bool {
    let k = kraft(lens, lens.len() as int);
    &&& k <= pow2(MAX_BITS as nat)
    &&& (k == pow2(MAX_BITS as nat) || count_bits(lens, 0, lens.len() as int) + count_bits(lens, 1, lens.len() as int)
        == lens.len())
}

/// The code lengths a dynamic header lists from bit `p`, appended to `acc`
/// up to `n` of them, and where the list ends: symbols below 16 are lengths,
/// 16 repeats the last length 3-6 times, 17 and 18 repeat zero 3-10 and
/// 11-138 times.
pub open spec fn code_lengths_spec(cl: Seq<u8>, d: Seq<u8>, p: nat, n: nat, acc: Seq<u8>) -> Result<(Seq<u8>, nat), ZiftErrorKind>
    decreases n - acc.len(),
{
    if acc.len() >= n {
        Ok((acc, p))
    } else {
        match decode_spec(cl, d, p) {
            None => Err(ZiftErrorKind::InvalidData { offset: p / 8 }),
            Some((sym, p1)) => if sym < 16 {
                code_lengths_spec(cl, d, p1, n, acc.push(sym as u8))
            } else if sym == 16 && acc.len() == 0 {
                Err(ZiftErrorKind::InvalidData { offset: p / 8 })
            } else {
                let extra: nat = if sym == 16 {
                    2
                } else if sym == 17 {
                    3
                } else {
                    7
                };
                let base: nat = if sym == 18 {
                    11
                } else {
                    3
                };
                if p1 + extra > 8 * d.len() {
                    Err(ZiftErrorKind::InvalidData { offset: p1 / 8 })
                } else {
                    let rep = base + bits_value(d, p1 as int, extra);
                    let val: u8 = if sym == 16 {
                        acc.last()
                    } else {
                        0
                    };
                    if acc.len() + rep > n {
                        Err(ZiftErrorKind::InvalidData { offset: p / 8 })
                    } else {
                        code_lengths_spec(cl, d, p1 + extra, n, acc + Seq::new(rep, |i: int| val))
                    }
                }
            },
        }
    }
}

/// The literal/length and distance code lengths of a dynamic block header
/// at bit `p`, and where the header ends.
pub open spec fn dynamic_spec(d: Seq<u8>, p: nat) -> Result<(Seq<u8>, Seq<u8>, nat), ZiftErrorKind> {
    if p + 14 > 8 * d.len() {
        Err(ZiftErrorKind::InvalidData { offset: p / 8 })
    } else {
        let nlen = bits_value(d, p as int, 5) + 257;
        let ndist = bits_value(d, p as int + 5, 5) + 1;
        let ncode = bits_value(d, p as int + 10, 4) + 4;
        if nlen > 286 || ndist > 30 {
            Err(ZiftErrorKind::InvalidData { offset: p / 8 })
        } else if p + 14 + 3 * ncode > 8 * d.len() {
            Err(ZiftErrorKind::InvalidData { offset: (p + 14) / 8 })
        } else {
            let cl = cl_lens_spec(d, p + 14, ncode);
            if kraft(cl, 19) != pow2(MAX_BITS as nat) {
                Err(ZiftErrorKind::InvalidData { offset: (p + 14) / 8 })
            } else {
                match code_lengths_spec(cl, d, p + 14 + 3 * ncode, nlen + ndist, Seq::empty()) {
                    Err(k) => Err(k),
                    Ok((lens, q)) => {
                        let lit = lens.subrange(0, nlen as int);
                        let dist = lens.subrange(nlen as int, (nlen + ndist) as int);
                        if lit[256] == 0 || !code_ok(lit) || !code_ok(dist) {
                            Err(ZiftErrorKind::InvalidData { offset: q / 8 })
                        } else {
                            Ok((lit, dist, q))
                        }
                    },
                }
            }
        }
    }
}

/// The body of a block of type `btype` whose header ends at bit `q`: its
/// literals and where it ends. Type 0 is stored, 1 uses the fixed codes,
/// 2 reads its codes from a dynamic header.
pub open spec fn block_body_spec(d: Seq<u8>, btype: nat, q: nat) -> Result<(Seq<u8>, nat), ZiftErrorKind> {
    if btype == 0 {
        stored_spec(d, q)
    } else if btype == 1 {
        codes_spec(fixed_lit_lens(), fixed_dist_lens(), d, q, Seq::empty())
    } else {
        match dynamic_spec(d, q) {
            Err(k) => Err(k),
            Ok((lit, dist, q2)) => codes_spec(lit, dist, d, q2, Seq::empty()),
        }
    }
}

/// The DEFLATE block at bit `p`: its literals, where it ends, whether it is
/// the last block, and its decoded length where that is known without
/// decoding (stored blocks). Block type 3 is reserved.
#[verifier::opaque]
pub open spec fn block_spec(d: Seq<u8>, p: nat) -> Result<(Seq<u8>, nat, bool, Option<u32>), ZiftErrorKind> {
    if p + 3 > 8 * d.len() {
        Err(ZiftErrorKind::InvalidData { offset: p / 8 })
    } else {
        let last = bits_value(d, p as int, 1) == 1;
        let btype = bits_value(d, p as int + 1, 2);
        if btype == 3 {
            Err(ZiftErrorKind::InvalidData { offset: p / 8 })
        } else {
            match block_body_spec(d, btype, p + 3) {
                Err(k) => Err(k),
                Ok((lits, end)) => Ok(
                    (
                        lits,
                        end,
                        last,
                        if btype == 0 {
                            Some(lits.len() as u32)
                        } else {
                            None
                        },
                    ),
                ),
            }
        }
    }
}

fn length_extra_bits(s: u16) -> (e: u32)
    requires
        s < 29,
    ensures
        e == length_extra(s as nat),
        e <= 5,
{
    if s < 8 || s == 28 {
        0
    } else {
        ((s - 4) / 4) as u32
    }
}

fn dist_extra_bits(s: u16) -> (e: u32)
    requires
        s < 30,
    ensures
        e == dist_extra(s as nat),
        e <= 13,
{
    if s < 4 {
        0
    } else {
        ((s - 2) / 2) as u32
    }
}

/// Decodes a Huffman-coded block body, appending its literals.
fn read_codes(br: &mut BitReader, lit: &HuffmanCode, dist: &HuffmanCode, literals: &mut Vec<u8>) -> (r: Result<(), ZiftError>)
    requires
        old(br).wf(),
        lit.wf(),
        dist.wf(),
    ensures
        final(br).wf(),
        final(br).src() == old(br).src(),
        match codes_spec(lit.lens(), dist.lens(), old(br).src(), old(br).pos(), old(literals)@) {
            Ok((acc, end)) => r is Ok && final(literals)@ == acc && final(br).pos() == end,
            Err(k) => r matches Err(e) && e@ == k,
        },
        r is Ok ==> final(br).pos() > old(br).pos(),
{
    let ghost d = br.src();
    let ghost goal = codes_spec(lit.lens(), dist.lens(), d, br.pos(), literals@);
    loop
        invariant
            br.wf(),
            br.src() == d,
            d == old(br).src(),
            lit.wf(),
            dist.wf(),
            goal == codes_spec(lit.lens(), dist.lens(), old(br).src(), old(br).pos(), old(literals)@),
            codes_spec(lit.lens(), dist.lens(), d, br.pos(), literals@) == goal,
            br.pos() >= old(br).pos(),
        decreases 8 * d.len() - br.pos(),
    {
        let ghost p = br.pos();
        let at = br.byte_offset();
        let sym = match lit.decode(br) {
            Some(s) => s,
            None => return Err(ZiftError::invalid(at, "truncated or invalid DEFLATE literal/length code. Fix: use a valid gzip stream")),
        };
        proof {
            lemma_decode_advances(lit.lens(), d, p, 1, 0);
        }
        if sym < 256 {
            literals.push(sym as u8);
        } else if sym == 256 {
            return Ok(());
        } else {
            if sym >= 257 + 29 {
                return Err(ZiftError::invalid(at, "invalid DEFLATE length symbol. Fix: use a valid gzip stream"));
            }
            let at1 = br.byte_offset();
            let e = length_extra_bits(sym - 257);
            match br.get_bits(e) {
                Some(_) => {},
                None => return Err(ZiftError::invalid(at1, "truncated DEFLATE length extra bits. Fix: use a complete gzip stream")),
            }
            let ghost p2 = br.pos();
            let at2 = br.byte_offset();
            let ds = match dist.decode(br) {
                Some(s) => s,
                None => return Err(ZiftError::invalid(at2, "truncated or invalid DEFLATE distance code. Fix: use a valid gzip stream")),
            };
            proof {
                lemma_decode_advances(dist.lens(), d, p2, 1, 0);
            }
            if ds >= 30 {
                return Err(ZiftError::invalid(at2, "invalid DEFLATE distance symbol. Fix: use a valid gzip stream"));
            }
            let at3 = br.byte_offset();
            let e2 = dist_extra_bits(ds);
            match br.get_bits(e2) {
                Some(_) => {},
                None => return Err(ZiftError::invalid(at3, "truncated DEFLATE distance extra bits. Fix: use a complete gzip stream")),
            }
        }
    }
}

/// Reads a stored block body, appending its bytes.
fn read_stored(br: &mut BitReader, literals: &mut Vec<u8>) -> (r: Result<(), ZiftError>)
    requires
        old(br).wf(),
    ensures
        final(br).wf(),
        final(br).src() == old(br).src(),
        match stored_spec(old(br).src(), old(br).pos()) {
            Ok((bytes, end)) => r is Ok && final(literals)@ == old(literals)@ + bytes && final(br).pos() == end,
            Err(k) => r matches Err(e) && e@ == k,
        },
        r is Ok ==> final(br).pos() > old(br).pos(),
{
    br.align();
    let at = br.byte_offset();
    let header = match br.take_bytes(4) {
        Some(h) => h,
        None => return Err(ZiftError::invalid(at, "truncated stored block header. Fix: use a complete gzip stream")),
    };
    let len = header[0] as usize + 256 * (header[1] as usize);
    let nlen = header[2] as usize + 256 * (header[3] as usize);
    if len + nlen != 0xffff {
        return Err(ZiftError::invalid(at, "stored block length does not match its complement. Fix: use a valid gzip stream"));
    }
    let body_at = br.byte_offset();
    let body = match br.take_bytes(len) {
        Some(b) => b,
        None => return Err(ZiftError::invalid(body_at, "stored block exceeds data bounds. Fix: use a complete gzip stream")),
    };
    literals.extend_from_slice(body);
    assert(literals@ =~= old(literals)@ + body@);
    Ok(())
}

/// The fixed literal/length code.
fn fixed_lit_code() -> (h: HuffmanCode)
    ensures
        h.wf(),
        h.lens() == fixed_lit_lens(),
{
    let mut lens: Vec<u8> = Vec::new();
    let mut i: usize = 0;
    while i < 288
        invariant
            i <= 288,
            lens@.len() == i,
            forall|j: int| 0 <= j < i ==> #[trigger] lens@[j] == fixed_lit_lens()[j],
        decreases 288 - i,
    {
        let l: u8 = if i < 144 {
            8
        } else if i < 256 {
            9
        } else if i < 280 {
            7
        } else {
            8
        };
        lens.push(l);
        i = i + 1;
    }
    assert(lens@ =~= fixed_lit_lens());
    HuffmanCode::build(lens.as_slice())
}

/// The fixed distance code.
fn fixed_dist_code() -> (h: HuffmanCode)
    ensures
        h.wf(),
        h.lens() == fixed_dist_lens(),
{
    let mut lens: Vec<u8> = Vec::new();
    let mut i: usize = 0;
    while i < 30
        invariant
            i <= 30,
            lens@.len() == i,
            forall|j: int| 0 <= j < i ==> #[trigger] lens@[j] == 5u8,
        decreases 30 - i,
    {
        lens.push(5);
        i = i + 1;
    }
    assert(lens@ =~= fixed_dist_lens());
    HuffmanCode::build(lens.as_slice())
}

/// The code-length code symbol listed `k`-th in a dynamic header.
pub open spec fn cl_order(k: int) -> int {
    if k == 0 {
        16
    } else if k == 1 {
        17
    } else if k == 2 {
        18
    } else if k == 3 {
        0
    } else if k == 4 {
        8
    } else if k == 5 {
        7
    } else if k == 6 {
        9
    } else if k == 7 {
        6
    } else if k == 8 {
        10
    } else if k == 9 {
        5
    } else if k == 10 {
        11
    } else if k == 11 {
        4
    } else if k == 12 {
        12
    } else if k == 13 {
        3
    } else if k == 14 {
        13
    } else if k == 15 {
        2
    } else if k == 16 {
        14
    } else if k == 17 {
        1
    } else {
        15
    }
}

proof fn lemma_cl_order()
    ensures
        forall|k: int| 0 <= k < 19 ==> 0 <= #[trigger] cl_order(k) < 19 && cl_order_pos(cl_order(k)) == k,
        forall|j: int| 0 <= j < 19 ==> 0 <= #[trigger] cl_order_pos(j) < 19 && cl_order(cl_order_pos(j)) == j,
{
}

/// Reads the `ncode` 3-bit code-length code lengths of a dynamic header.
fn read_cl_lens(br: &mut BitReader, ncode: usize) -> (lens: Vec<u8>)
    requires
        old(br).wf(),
        4 <= ncode <= 19,
        old(br).pos() + 3 * ncode <= 8 * old(br).src().len(),
    ensures
        final(br).wf(),
        final(br).src() == old(br).src(),
        final(br).pos() == old(br).pos() + 3 * ncode,
        lens@ == cl_lens_spec(old(br).src(), old(br).pos(), ncode as nat),
{
    let order: [usize; 19] = [16, 17, 18, 0, 8, 7, 9, 6, 10, 5, 11, 4, 12, 3, 13, 2, 14, 1, 15];
    proof {
        lemma_cl_order();
        assert forall|k: int| 0 <= k < 19 implies #[trigger] order@[k] == cl_order(k) by {
        }
    }
    let ghost d = br.src();
    let ghost p = br.pos();
    let mut lens: Vec<u8> = Vec::new();
    let mut j: usize = 0;
    while j < 19
        invariant
            j <= 19,
            lens@.len() == j,
            forall|q: int| 0 <= q < j ==> #[trigger] lens@[q] == 0,
        decreases 19 - j,
    {
        lens.push(0);
        j = j + 1;
    }
    let mut i: usize = 0;
    while i < ncode
        invariant
            br.wf(),
            br.src() == d,
            4 <= ncode <= 19,
            i <= ncode,
            br.pos() == p + 3 * i,
            p + 3 * ncode <= 8 * d.len(),
            lens@.len() == 19,
            forall|k: int| 0 <= k < 19 ==> #[trigger] order@[k] == cl_order(k),
            forall|k: int| 0 <= k < 19 ==> 0 <= #[trigger] cl_order(k) < 19 && cl_order_pos(cl_order(k)) == k,
            forall|q: int| 0 <= q < 19 ==> 0 <= #[trigger] cl_order_pos(q) < 19 && cl_order(cl_order_pos(q)) == q,
            forall|q: int|
                0 <= q < 19 ==> #[trigger] lens@[q] == if cl_order_pos(q) < i {
                    bits_value(d, p + 3 * cl_order_pos(q), 3) as u8
                } else {
                    0u8
                },
        decreases ncode - i,
    {
        let v = match br.get_bits(3) {
            Some(v) => v,
            None => 0,
        };
        proof {
            crate::zstd::bit_io::lemma_bits_value_bound(d, p + 3 * i, 3);
            assert(pow2(3) == 8) by {
                lemma2_to64();
            }
        }
        let at = order[i];
        lens.set(at, v as u8);
        proof {
            assert forall|q: int| 0 <= q < 19 implies #[trigger] lens@[q] == if cl_order_pos(q) < i + 1 {
                bits_value(d, p + 3 * cl_order_pos(q), 3) as u8
            } else {
                0u8
            } by {
                if q == at as int {
                    assert(cl_order_pos(q) == i);
                } else {
                    assert(cl_order_pos(q) != i);
                }
            }
        }
        i = i + 1;
    }
    assert(lens@ =~= cl_lens_spec(d, p, ncode as nat));
    lens
}

/// The Kraft sum of code lengths, in units of `2^-15`.
fn kraft_sum(lens: &[u8]) -> (k: u32)
    requires
        lens_ok(lens@),
    ensures
        k == kraft(lens@, lens@.len() as int),
{
    let mut k: u32 = 0;
    let mut i: usize = 0;
    proof {
        assert(pow2(14) == 0x4000) by {
            lemma2_to64();
        }
    }
    while i < lens.len()
        invariant
            lens_ok(lens@),
            i <= lens@.len(),
            k == kraft(lens@, i as int),
            k <= i * 0x4000,
            pow2(14) == 0x4000,
        decreases lens@.len() - i,
    {
        let l = lens[i];
        if l >= 1 {
            proof {
                crate::zstd::fse::lemma_shl_pow2((15 - l) as nat);
                crate::zstd::fse::lemma_pow2_increases_le((15 - l) as nat, 14);
            }
            k = k + (1u32 << (15 - l) as u32);
        }
        i = i + 1;
    }
    k
}

/// How many code lengths are zero or one.
fn short_lengths(lens: &[u8]) -> (c: usize)
    ensures
        c == count_bits(lens@, 0, lens@.len() as int) + count_bits(lens@, 1, lens@.len() as int),
{
    let mut c: usize = 0;
    let mut i: usize = 0;
    while i < lens.len()
        invariant
            i <= lens@.len(),
            c == count_bits(lens@, 0, i as int) + count_bits(lens@, 1, i as int),
            c <= i,
        decreases lens@.len() - i,
    {
        if lens[i] <= 1 {
            c = c + 1;
        }
        i = i + 1;
    }
    c
}

/// Whether a dynamic block may use the code of `lens`.
fn usable_code(lens: &[u8]) -> (r: bool)
    requires
        lens_ok(lens@),
    ensures
        r == code_ok(lens@),
{
    proof {
        assert(pow2(15) == 0x8000) by {
            lemma2_to64();
        }
    }
    let k = kraft_sum(lens);
    k <= 0x8000 && (k == 0x8000 || short_lengths(lens) == lens.len())
}

/// Reads the `n` code lengths a dynamic header lists with the code-length
/// code `cl`.
fn read_code_lengths(br: &mut BitReader, cl: &HuffmanCode, n: usize) -> (r: Result<Vec<u8>, ZiftError>)
    requires
        old(br).wf(),
        cl.wf(),
        cl.lens().len() == 19,
        n <= 316,
    ensures
        final(br).wf(),
        final(br).src() == old(br).src(),
        match code_lengths_spec(cl.lens(), old(br).src(), old(br).pos(), n as nat, Seq::empty()) {
            Ok((acc, q)) => r matches Ok(v) && v@ == acc && final(br).pos() == q,
            Err(k) => r matches Err(e) && e@ == k,
        },
        r matches Ok(v) ==> forall|i: int| 0 <= i < v@.len() ==> #[trigger] v@[i] <= MAX_BITS,
        r matches Ok(v) ==> v@.len() == n,
        r is Ok ==> final(br).pos() >= old(br).pos(),
{
    let ghost d = br.src();
    let ghost goal = code_lengths_spec(cl.lens(), d, br.pos(), n as nat, Seq::empty());
    let mut lens: Vec<u8> = Vec::new();
    loop
        invariant
            br.wf(),
            br.src() == d,
            d == old(br).src(),
            cl.wf(),
            cl.lens().len() == 19,
            n <= 316,
            lens@.len() <= n,
            forall|i: int| 0 <= i < lens@.len() ==> #[trigger] lens@[i] <= MAX_BITS,
            goal == code_lengths_spec(cl.lens(), old(br).src(), old(br).pos(), n as nat, Seq::empty()),
            code_lengths_spec(cl.lens(), d, br.pos(), n as nat, lens@) == goal,
            br.pos() >= old(br).pos(),
        decreases n - lens@.len(),
    {
        if lens.len() >= n {
            return Ok(lens);
        }
        let ghost p = br.pos();
        let at = br.byte_offset();
        let sym = match cl.decode(br) {
            Some(s) => s,
            None => return Err(ZiftError::invalid(at, "truncated or invalid code length code. Fix: use a valid gzip stream")),
        };
        proof {
            lemma_decode_advances(cl.lens(), d, p, 1, 0);
        }
        if sym < 16 {
            lens.push(sym as u8);
        } else {
            if sym == 16 && lens.len() == 0 {
                return Err(ZiftError::invalid(at, "code length repeat with no previous length. Fix: use a valid gzip stream"));
            }
            let extra: u32 = if sym == 16 {
                2
            } else if sym == 17 {
                3
            } else {
                7
            };
            let base: usize = if sym == 18 {
                11
            } else {
                3
            };
            let at1 = br.byte_offset();
            let v = match br.get_bits(extra) {
                Some(v) => v,
                None => return Err(ZiftError::invalid(at1, "truncated code length repeat count. Fix: use a complete gzip stream")),
            };
            proof {
                crate::zstd::bit_io::lemma_bits_value_bound(d, br.pos() - extra, extra as nat);
                crate::zstd::fse::lemma_pow2_increases_le(extra as nat, 7);
                assert(pow2(7) == 128) by {
                    lemma2_to64();
                }
            }
            let rep = base + v as usize;
            let val: u8 = if sym == 16 {
                lens[lens.len() - 1]
            } else {
                0
            };
            if lens.len() + rep > n {
                return Err(ZiftError::invalid(at, "too many code lengths in dynamic block header. Fix: use a valid gzip stream"));
            }
            let ghost before = lens@;
            let mut k: usize = 0;
            while k < rep
                invariant
                    k <= rep,
                    lens@.len() <= n,
                    before.len() + rep <= n,
                    lens@ == before + Seq::new(k as nat, |i: int| val),
                    val <= MAX_BITS,
                    forall|i: int| 0 <= i < before.len() ==> #[trigger] before[i] <= MAX_BITS,
                decreases rep - k,
            {
                lens.push(val);
                k = k + 1;
                assert(lens@ =~= before + Seq::new(k as nat, |i: int| val));
            }
            proof {
                assert forall|i: int| 0 <= i < lens@.len() implies #[trigger] lens@[i] <= MAX_BITS by {
                    if i >= before.len() {
                        assert(lens@[i] == val);
                    }
                }
            }
        }
    }
}

/// Reads a dynamic block header and builds its two codes.
fn read_dynamic(br: &mut BitReader) -> (r: Result<(HuffmanCode, HuffmanCode), ZiftError>)
    requires
        old(br).wf(),
    ensures
        final(br).wf(),
        final(br).src() == old(br).src(),
        match dynamic_spec(old(br).src(), old(br).pos()) {
            Ok((lit, dist, q)) => r matches Ok((a, b)) && a.wf() && b.wf() && a.lens() == lit && b.lens() == dist
                && final(br).pos() == q,
            Err(k) => r matches Err(e) && e@ == k,
        },
        r is Ok ==> final(br).pos() >= old(br).pos(),
{
    let ghost d = br.src();
    let ghost p = br.pos();
    let at = br.byte_offset();
    if !br.has_bits(14) {
        return Err(ZiftError::invalid(at, "truncated dynamic block header. Fix: use a complete gzip stream"));
    }
    let hlit = match br.get_bits(5) {
        Some(v) => v,
        None => 0,
    };
    let hdist = match br.get_bits(5) {
        Some(v) => v,
        None => 0,
    };
    let hclen = match br.get_bits(4) {
        Some(v) => v,
        None => 0,
    };
    proof {
        crate::zstd::bit_io::lemma_bits_value_bound(d, p as int, 5);
        crate::zstd::bit_io::lemma_bits_value_bound(d, p as int + 5, 5);
        crate::zstd::bit_io::lemma_bits_value_bound(d, p as int + 10, 4);
        lemma2_to64();
    }
    let nlen = hlit as usize + 257;
    let ndist = hdist as usize + 1;
    let ncode = hclen as usize + 4;
    if nlen > 286 || ndist > 30 {
        return Err(ZiftError::invalid(at, "too many DEFLATE length or distance codes. Fix: use a valid gzip stream"));
    }
    let at14 = br.byte_offset();
    if !br.has_bits(3 * ncode) {
        return Err(ZiftError::invalid(at14, "truncated code length code. Fix: use a complete gzip stream"));
    }
    let cl = read_cl_lens(br, ncode);
    proof {
        assert forall|s: int| 0 <= s < cl@.len() implies #[trigger] cl@[s] <= MAX_BITS by {
            if cl_order_pos(s) < ncode {
                crate::zstd::bit_io::lemma_bits_value_bound(d, p + 14 + 3 * cl_order_pos(s), 3);
            }
        }
    }
    if kraft_sum(cl.as_slice()) != 0x8000 {
        return Err(ZiftError::invalid(at14, "incomplete or over-subscribed code length code. Fix: use a valid gzip stream"));
    }
    let clcode = HuffmanCode::build(cl.as_slice());
    let lens = match read_code_lengths(br, &clcode, nlen + ndist) {
        Ok(v) => v,
        Err(e) => return Err(e),
    };
    let atq = br.byte_offset();
    let lit = &lens[0..nlen];
    let dist = &lens[nlen..nlen + ndist];
    if lit[256] == 0 || !usable_code(lit) || !usable_code(dist) {
        return Err(ZiftError::invalid(atq, "invalid DEFLATE literal/length or distance code. Fix: use a valid gzip stream"));
    }
    Ok((HuffmanCode::build(lit), HuffmanCode::build(dist)))
}

/// Reads the body of a block of type `btype` (below 3) whose header ends
/// at the reader's position, appending its literals.
fn read_block_body(br: &mut BitReader, btype: u32, literals: &mut Vec<u8>) -> (r: Result<(), ZiftError>)
    requires
        old(br).wf(),
        btype < 3,
    ensures
        final(br).wf(),
        final(br).src() == old(br).src(),
        match block_body_spec(old(br).src(), btype as nat, old(br).pos()) {
            Ok((lits, end)) => r is Ok && final(literals)@ == old(literals)@ + lits && final(br).pos() == end,
            Err(k) => r matches Err(e) && e@ == k,
        },
        r is Ok ==> final(br).pos() > old(br).pos(),
{
    if btype == 0 {
        return read_stored(br, literals);
    }
    let ghost start = literals@;
    let mut body: Vec<u8> = Vec::new();
    let res = if btype == 1 {
        let lit = fixed_lit_code();
        let dist = fixed_dist_code();
        read_codes(br, &lit, &dist, &mut body)
    } else {
        match read_dynamic(br) {
            Ok((lit, dist)) => read_codes(br, &lit, &dist, &mut body),
            Err(e) => Err(e),
        }
    };
    match res {
        Ok(_) => {
            literals.append(&mut body);
            Ok(())
        },
        Err(e) => Err(e),
    }
}

/// Reads the DEFLATE block at the reader's position: its literals, whether
/// it is the last block, and its decoded length where a stored block gives
/// it. The literal buffer is sized up front to the rest of the input.
pub fn read_block(br: &mut BitReader) -> (r: Result<(Vec<u8>, bool, Option<u32>), ZiftError>)
    requires
        old(br).wf(),
    ensures
        final(br).wf(),
        final(br).src() == old(br).src(),
        match block_spec(old(br).src(), old(br).pos()) {
            Ok((lits, end, last, ulen)) => r matches Ok((v, l, u)) && v@ == lits && l == last && u == ulen
                && final(br).pos() == end,
            Err(k) => r matches Err(e) && e@ == k,
        },
        r is Ok ==> old(br).pos() < final(br).pos() <= 8 * old(br).src().len(),
{
    reveal(block_spec);
    let at = br.byte_offset();
    if !br.has_bits(3) {
        return Err(ZiftError::invalid(at, "truncated DEFLATE block header. Fix: use a complete gzip stream"));
    }
    let last = match br.get_bits(1) {
        Some(v) => v == 1,
        None => false,
    };
    let btype = match br.get_bits(2) {
        Some(v) => v,
        None => 0,
    };
    proof {
        crate::zstd::bit_io::lemma_bits_value_bound(br.src(), br.pos() - 2, 2);
        crate::zstd::bit_io::lemma_bits_value_bound(br.src(), br.pos() - 3, 1);
        assert(pow2(2) == 4 && pow2(1) == 2) by {
            lemma2_to64();
        }
    }
    if btype == 3 {
        return Err(ZiftError::invalid(at, "reserved DEFLATE block type. Fix: use a valid gzip stream"));
    }
    let mut literals: Vec<u8> = Vec::with_capacity(br.remaining_bytes());
    let ghost body = block_body_spec(br.src(), btype as nat, br.pos());
    match read_block_body(br, btype, &mut literals) {
        Ok(_) => {},
        Err(e) => return Err(e),
    }
    proof {
        if body is Ok {
            assert(Seq::<u8>::empty() + body->Ok_0.0 =~= body->Ok_0.0);
        }
        br.lemma_within();
    }
    let ulen = if btype == 0 {
        Some(literals.len() as u32)
    } else {
        None
    };
    Ok((literals, last, ulen))
}

} // verus!
