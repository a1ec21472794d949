//! Zstd Huffman decoder for compressed literals.
//!
//! Zstd stores Huffman weights, not code lengths. The number of bits for a
//! symbol is `max_bits + 1 - weight` where `max_bits` is derived from the Kraft
//! sum of the weights. The last weight is implied and completes the sum to the
//! next power of two. Weights may be stored directly (4 bits per weight) or
//! compressed with FSE.
use vstd::prelude::*;
use vstd::arithmetic::power2::{pow2, lemma_pow2_unfold, lemma_pow2_pos, lemma2_to64, lemma_pow2_adds, lemma_pow2_strictly_increases};
use super::bit_io::{BitReaderReversed, bits_value, lemma_bits_value_bound, lemma_bits_value_concat, lemma_or_is_add};
use super::fse::{FSEDecoder, FSETable, hbs, lemma_hbs_bounds, lemma_hbs_unique, lemma_pow2_increases_le, lemma_shl_pow2};

verus! {

/// The longest code length a table accepts.
pub const MAX_MAX_NUM_BITS: u8 = 11;

/// Number of bits needed to write `x` (zero for zero).
fn highest_bit_set(x: u32) -> (r: u32)
    ensures
        r == hbs(x as nat),
        r <= 32,
{
    let mut y = x;
    let mut n: u32 = 0;
    proof {
        lemma_hbs_bounds(x as nat);
        assert(pow2(32) == 0x1_0000_0000) by {
            lemma2_to64();
        }
        if hbs(x as nat) > 32 {
            lemma_pow2_increases_le(32, (hbs(x as nat) - 1) as nat);
        }
    }
    while y != 0
        invariant
            n + hbs(y as nat) == hbs(x as nat),
            hbs(x as nat) <= 32,
        decreases y,
    {
        y = y / 2;
        n = n + 1;
    }
    n
}

/// `x` is a power of two: it equals two to one less than its bit count.
pub open spec fn is_pow2(x: nat) -> bool {
    x > 0 && pow2((hbs(x) - 1) as nat) == x
}

fn is_power_of_two(x: u32) -> (r: bool)
    ensures
        r == is_pow2(x as nat),
{
    if x == 0 {
        return false;
    }
    let h = highest_bit_set(x);
    proof {
        lemma_hbs_bounds(x as nat);
        lemma2_to64();
        assert(h <= 32);
        if h > 32 {
            assert(false);
        }
        if h == 32 {
            assert(pow2(31) == 0x8000_0000) by {
                lemma2_to64();
            }
        } else {
            lemma_shl_pow2((h - 1) as nat);
        }
    }
    if h == 32 {
        return x == 0x8000_0000u32;
    }
    (1u32 << (h - 1)) == x
}

/// The weight a symbol contributes to the Kraft sum: `2^(w-1)`, none for 0.
pub open spec fn weight_value(w: u8) -> nat {
    if w > 0 {
        pow2((w - 1) as nat)
    } else {
        0
    }
}

/// Kraft sum of the first `n` weights.
pub open spec fn kraft_sum(ws: Seq<u8>, n: int) -> nat
    decreases n,
{
    if n <= 0 {
        0
    } else {
        kraft_sum(ws, n - 1) + weight_value(ws[n - 1])
    }
}

/// The code lengths that the weights give, the implied last symbol's
/// included, and the longest code length: `None` where a weight exceeds 11,
/// all weights are zero, the sum leaves a remainder to the next power of two
/// that is not itself a power of two, or the longest code exceeds 11 bits.
pub open spec fn huffman_layout(ws: Seq<u8>) -> Option<(nat, Seq<u8>)> {
    if exists|i: int| 0 <= i < ws.len() && #[trigger] ws[i] > MAX_MAX_NUM_BITS {
        None
    } else {
        let sum = kraft_sum(ws, ws.len() as int);
        if sum == 0 {
            None
        } else {
            let mb = hbs(sum);
            let left = (pow2(mb) - sum) as nat;
            if !is_pow2(left) {
                None
            } else {
                let last = hbs(left);
                let bits = Seq::new(
                    (ws.len() + 1) as nat,
                    |i: int|
                        if i < ws.len() {
                            if ws[i] > 0 {
                                (mb + 1 - ws[i]) as u8
                            } else {
                                0u8
                            }
                        } else {
                            (mb + 1 - last) as u8
                        },
                );
                if mb > MAX_MAX_NUM_BITS {
                    None
                } else {
                    Some((mb, bits))
                }
            }
        }
    }
}

/// How many of the first `n` code lengths equal `b`.
pub open spec fn count_bits(bits: Seq<u8>, b: nat, n: int) -> nat
    decreases n,
{
    if n <= 0 {
        0
    } else {
        count_bits(bits, b, n - 1) + if bits[n - 1] == b {
            1nat
        } else {
            0
        }
    }
}

/// First table slot of the codes of length `b`: longer codes come first,
/// each code of length `b'` taking `2^(mb - b')` slots.
pub open spec fn rank_start(bits: Seq<u8>, mb: nat, b: nat) -> nat
    decreases mb - b,
{
    if b >= mb {
        0
    } else {
        rank_start(bits, mb, b + 1) + count_bits(bits, b + 1, bits.len() as int) * pow2(
            (mb - (b + 1)) as nat,
        )
    }
}

#[derive(Copy, Clone, Debug)]
pub struct Entry {
    pub symbol: u8,
    pub num_bits: u8,
}

/// The decoding table of the code lengths `bits`: the codes of each length
/// take their slots from `rank_start`, in symbol order, each `2^(mb - b)`
/// slots long; every slot is taken.
pub open spec fn huffman_table_matches(decode: Seq<Entry>, bits: Seq<u8>, mb: nat) -> bool {
    &&& decode.len() == pow2(mb)
    &&& rank_start(bits, mb, 0) == pow2(mb)
    &&& forall|s: int, k: int|
        0 <= s < bits.len() && bits[s] >= 1 && 0 <= k < pow2((mb - bits[s]) as nat) ==> #[trigger] decode[rank_start(
            bits,
            mb,
            bits[s] as nat,
        ) + count_bits(bits, bits[s] as nat, s) * pow2((mb - bits[s]) as nat) + k]
            == (Entry { symbol: s as u8, num_bits: bits[s] })
    &&& forall|x: int| 0 <= x < decode.len() ==> 1 <= (#[trigger] decode[x]).num_bits <= mb
}

/// What building a table from the weights gives: the longest code length
/// and the code lengths, provided every slot of the table is accounted for.
pub open spec fn huffman_build_spec(ws: Seq<u8>) -> Option<(nat, Seq<u8>)> {
    match huffman_layout(ws) {
        None => None,
        Some((mb, bits)) => if rank_start(bits, mb, 0) == pow2(mb) {
            Some((mb, bits))
        } else {
            None
        },
    }
}

proof fn lemma_weight_le_sum(ws: Seq<u8>, i: int, n: int)
    requires
        0 <= i < n <= ws.len(),
    ensures
        weight_value(ws[i]) <= kraft_sum(ws, n),
    decreases n,
{
    if i < n - 1 {
        lemma_weight_le_sum(ws, i, n - 1);
    } else {
        lemma_weight_sum_nonneg(ws, n - 1);
    }
}

proof fn lemma_weight_sum_nonneg(ws: Seq<u8>, n: int)
    ensures
        kraft_sum(ws, n) >= 0,
{
}

pub proof fn lemma_count_bits_mono(bits: Seq<u8>, b: nat, a: int, c: int)
    requires
        0 <= a <= c,
    ensures
        count_bits(bits, b, a) <= count_bits(bits, b, c),
        count_bits(bits, b, c) <= count_bits(bits, b, a) + (c - a),
    decreases c - a,
{
    if a < c {
        lemma_count_bits_mono(bits, b, a, c - 1);
    }
}

proof fn lemma_rank_start_mono(bits: Seq<u8>, mb: nat, b1: nat, b2: nat)
    requires
        b1 <= b2,
    ensures
        rank_start(bits, mb, b2) <= rank_start(bits, mb, b1),
    decreases b2 - b1,
{
    if b1 < b2 {
        lemma_rank_start_mono(bits, mb, b1 + 1, b2);
        if b1 < mb {
            vstd::arithmetic::mul::lemma_mul_nonnegative(
                count_bits(bits, b1 + 1, bits.len() as int) as int,
                pow2((mb - (b1 + 1)) as nat) as int,
            );
        }
    }
}

/// Every slot below the first slot of the zero-length codes lies in the
/// slots of one code length.
proof fn lemma_find_group(bits: Seq<u8>, mb: nat, x: int, b: nat)
    requires
        1 <= b <= mb,
        0 <= x < rank_start(bits, mb, (b - 1) as nat),
    ensures
        exists|g: nat|
            b <= g <= mb && #[trigger] rank_start(bits, mb, g) <= x < rank_start(bits, mb, (g - 1) as nat),
    decreases mb - b,
{
    if x >= rank_start(bits, mb, b) {
        assert(rank_start(bits, mb, b) <= x < rank_start(bits, mb, (b - 1) as nat));
    } else {
        if b == mb {
            assert(rank_start(bits, mb, b) == 0);
        } else {
            lemma_find_group(bits, mb, x, b + 1);
        }
    }
}

/// The code lengths of the weights, the implied last one included; returns
/// the longest code length.
fn layout_bits(weights: &Vec<u8>, bits: &mut Vec<u8>) -> (r: Option<u8>)
    requires
        weights@.len() <= 300,
    ensures
        match huffman_layout(weights@) {
            None => r is None,
            Some((mb, b)) => r == Some(mb as u8) && final(bits)@ == b,
        },
        r is Some ==> forall|j: int| 0 <= j < final(bits)@.len() ==> 1 <= r->0 && #[trigger] final(bits)@[j] <= r->0,
{
    let ghost ws = weights@;
    let n = weights.len();
    bits.clear();
    bits.resize(n + 1, 0);
    let mut weight_sum: u32 = 0;
    let mut i: usize = 0;
    while i < n
        invariant
            n == ws.len(),
            ws == weights@,
            n <= 300,
            i <= n,
            weight_sum == kraft_sum(ws, i as int),
            weight_sum <= i * 1024,
            forall|j: int| 0 <= j < i ==> #[trigger] ws[j] <= MAX_MAX_NUM_BITS,
            bits@.len() == n + 1,
        decreases n - i,
    {
        let w = weights[i];
        if w > MAX_MAX_NUM_BITS {
            return None;
        }
        proof {
            if w > 0 {
                lemma_shl_pow2((w - 1) as nat);
                lemma_pow2_increases_le((w - 1) as nat, 10);
                assert(pow2(10) == 1024) by {
                    lemma2_to64();
                }
            }
        }
        weight_sum = weight_sum + if w > 0 {
            1u32 << (w - 1)
        } else {
            0
        };
        i = i + 1;
    }
    if weight_sum == 0 {
        return None;
    }
    let ghost sum = weight_sum as nat;
    proof {
        lemma_hbs_bounds(sum);
        assert(pow2(19) == 0x8_0000) by {
            lemma2_to64();
        }
        if hbs(sum) > 19 {
            lemma_pow2_increases_le(19, (hbs(sum) - 1) as nat);
        }
    }
    let max_bits = highest_bit_set(weight_sum) as u8;
    proof {
        lemma_shl_pow2(max_bits as nat);
    }
    let left_over = (1u32 << max_bits) - weight_sum;
    if !is_power_of_two(left_over) {
        return None;
    }
    proof {
        lemma_hbs_bounds(left_over as nat);
        if hbs(left_over as nat) > max_bits {
            lemma_pow2_increases_le(max_bits as nat, (hbs(left_over as nat) - 1) as nat);
        }
    }
    let last_weight = highest_bit_set(left_over) as u8;
    proof {
        lemma2_to64();
        assert(max_bits >= 1);
        assert(left_over >= 1);
        assert(last_weight >= 1);
    }
    let mut symbol: usize = 0;
    while symbol < n
        invariant
            n == ws.len(),
            ws == weights@,
            symbol <= n,
            bits@.len() == n + 1,
            forall|j: int| 0 <= j < n ==> #[trigger] ws[j] <= MAX_MAX_NUM_BITS,
            sum == kraft_sum(ws, n as int),
            sum < pow2(max_bits as nat),
            max_bits == hbs(sum),
            max_bits <= 19,
            forall|j: int| 0 <= j < symbol ==> #[trigger] bits@[j] == if ws[j] > 0 {
                (max_bits + 1 - ws[j]) as u8
            } else {
                0u8
            },
            forall|j: int| 0 <= j < symbol ==> #[trigger] bits@[j] <= max_bits,
            max_bits >= 1,
            left_over as nat == pow2(max_bits as nat) - sum,
            last_weight == hbs(left_over as nat),
            1 <= last_weight <= max_bits,
        decreases n - symbol,
    {
        let w = weights[symbol];
        let b = if w > 0 {
            proof {
                lemma_weight_le_sum(ws, symbol as int, n as int);
                if w > max_bits {
                    lemma_pow2_increases_le(max_bits as nat, (w - 1) as nat);
                }
            }
            max_bits + 1 - w
        } else {
            0
        };
        bits.set(symbol, b);
        symbol = symbol + 1;
    }
    bits.set(n, max_bits + 1 - last_weight);
    if max_bits > MAX_MAX_NUM_BITS {
        return None;
    }
    proof {
        let mb = hbs(sum);
        let lay = huffman_layout(ws);
        assert(!(exists|j: int| 0 <= j < ws.len() && #[trigger] ws[j] > MAX_MAX_NUM_BITS));
        assert(lay is Some);
        assert(bits@ =~= lay.unwrap().1);
    }
    Some(max_bits)
}

/// Counts the codes of each length.
fn count_ranks(bits: &Vec<u8>, bit_ranks: &mut Vec<u32>, max_bits: u8)
    requires
        bits@.len() <= 301,
        forall|j: int| 0 <= j < bits@.len() ==> #[trigger] bits@[j] <= max_bits,
    ensures
        final(bit_ranks)@.len() == max_bits + 1,
        forall|b: int| 0 <= b <= max_bits ==> #[trigger] final(bit_ranks)@[b] == count_bits(bits@, b as nat, bits@.len() as int),
{
    bit_ranks.clear();
    bit_ranks.resize(max_bits as usize + 1, 0);
    proof {
        assert forall|b: int| 0 <= b <= max_bits implies #[trigger] bit_ranks@[b] == 0 by {
            assert(cloned::<u32>(0u32, bit_ranks@[b]));
        }
    }
    let mut i: usize = 0;
    while i < bits.len()
        invariant
            bits@.len() <= 301,
            forall|j: int| 0 <= j < bits@.len() ==> #[trigger] bits@[j] <= max_bits,
            i <= bits@.len(),
            bit_ranks@.len() == max_bits + 1,
            forall|b: int| 0 <= b <= max_bits ==> #[trigger] bit_ranks@[b] == count_bits(bits@, b as nat, i as int),
        decreases bits@.len() - i,
    {
        let nb = bits[i] as usize;
        proof {
            lemma_count_bits_mono(bits@, nb as nat, i as int, bits@.len() as int);
            lemma_count_bits_mono(bits@, nb as nat, 0, i as int);
        }
        let c = bit_ranks[nb];
        bit_ranks.set(nb, c + 1);
        i = i + 1;
    }
}

/// The first slot of the codes of each length.
fn fill_rank_indexes(bit_ranks: &Vec<u32>, rank_indexes: &mut Vec<usize>, max_bits: u8, Ghost(bits): Ghost<Seq<u8>>)
    requires
        1 <= max_bits <= MAX_MAX_NUM_BITS,
        bits.len() <= 301,
        bit_ranks@.len() == max_bits + 1,
        forall|b: int| 0 <= b <= max_bits ==> #[trigger] bit_ranks@[b] == count_bits(bits, b as nat, bits.len() as int),
    ensures
        final(rank_indexes)@.len() == max_bits + 1,
        forall|b: int| 0 <= b <= max_bits ==> #[trigger] final(rank_indexes)@[b] == rank_start(bits, max_bits as nat, b as nat),
{
    let ghost mb = max_bits as nat;
    rank_indexes.clear();
    rank_indexes.resize(max_bits as usize + 1, 0);
    proof {
        assert(cloned::<usize>(0usize, rank_indexes@[mb as int]));
    }
    rank_indexes.set(max_bits as usize, 0);
    let mut b: u8 = max_bits;
    while b >= 1
        invariant
            1 <= max_bits <= MAX_MAX_NUM_BITS,
            mb == max_bits,
            bits.len() <= 301,
            bit_ranks@.len() == max_bits + 1,
            forall|bb: int| 0 <= bb <= max_bits ==> #[trigger] bit_ranks@[bb] == count_bits(bits, bb as nat, bits.len() as int),
            b <= max_bits,
            rank_indexes@.len() == max_bits + 1,
            forall|bb: int| b <= bb <= max_bits ==> #[trigger] rank_indexes@[bb] == rank_start(bits, mb, bb as nat),
            rank_start(bits, mb, b as nat) <= (mb - b) * 301 * 2048,
        decreases b,
    {
        proof {
            lemma_count_bits_mono(bits, b as nat, 0, bits.len() as int);
            lemma_shl_pow2((max_bits - b) as nat);
            lemma_pow2_increases_le((max_bits - b) as nat, 11);
            assert(pow2(11) == 2048) by {
                lemma2_to64();
            }
            assert(bit_ranks@[b as int] * pow2((mb - b) as nat) <= 301 * 2048) by (nonlinear_arith)
                requires
                    bit_ranks@[b as int] <= 301,
                    pow2((mb - b) as nat) <= 2048,
            ;
        }
        let next = rank_indexes[b as usize] + (bit_ranks[b as usize] as usize) * (1usize << (max_bits - b));
        rank_indexes.set((b - 1) as usize, next);
        b = b - 1;
    }
}

/// Lays the codes out in the table, longest first, each length's codes in
/// symbol order.
fn fill_decode(decode: &mut Vec<Entry>, bits: &Vec<u8>, rank_indexes: &mut Vec<usize>, max_bits: u8)
    requires
        1 <= max_bits <= MAX_MAX_NUM_BITS,
        bits@.len() <= 301,
        forall|j: int| 0 <= j < bits@.len() ==> #[trigger] bits@[j] <= max_bits,
        old(decode)@.len() == pow2(max_bits as nat),
        old(rank_indexes)@.len() == max_bits + 1,
        forall|b: int| 0 <= b <= max_bits ==> #[trigger] old(rank_indexes)@[b] == rank_start(bits@, max_bits as nat, b as nat),
        rank_start(bits@, max_bits as nat, 0) == pow2(max_bits as nat),
    ensures
        huffman_table_matches(final(decode)@, bits@, max_bits as nat),
{
    let ghost mb = max_bits as nat;
    let ghost bs = bits@;
    let ghost ts = pow2(mb);
    proof {
        lemma_pow2_increases_le(mb, 11);
        assert(pow2(11) == 2048) by {
            lemma2_to64();
        }
    }
    let mut symbol: usize = 0;
    proof {
        assert forall|b: int| 1 <= b <= max_bits implies #[trigger] rank_indexes@[b] == rank_start(bs, mb, b as nat)
            + count_bits(bs, b as nat, 0) * pow2((mb - b) as nat) by {
            assert(count_bits(bs, b as nat, 0) == 0);
            assert(0 * pow2((mb - b) as nat) == 0);
        }
    }
    while symbol < bits.len()
        invariant
            1 <= max_bits <= MAX_MAX_NUM_BITS,
            mb == max_bits,
            bs == bits@,
            ts == pow2(mb),
            ts <= 2048,
            bs.len() <= 301,
            forall|j: int| 0 <= j < bs.len() ==> #[trigger] bs[j] <= max_bits,
            decode@.len() == ts,
            rank_start(bs, mb, 0) == ts,
            rank_indexes@.len() == max_bits + 1,
            rank_indexes@[0] == ts,
            symbol <= bs.len(),
            forall|b: int| 1 <= b <= max_bits ==> #[trigger] rank_indexes@[b] == rank_start(bs, mb, b as nat)
                + count_bits(bs, b as nat, symbol as int) * pow2((mb - b) as nat),
            forall|s: int, k: int|
                0 <= s < symbol && bs[s] >= 1 && 0 <= k < pow2((mb - bs[s]) as nat) ==> #[trigger] decode@[rank_start(
                    bs,
                    mb,
                    bs[s] as nat,
                ) + count_bits(bs, bs[s] as nat, s) * pow2((mb - bs[s]) as nat) + k]
                    == (Entry { symbol: s as u8, num_bits: bs[s] }),
            forall|b: int, x: int|
                1 <= b <= max_bits && rank_start(bs, mb, b as nat) <= x < #[trigger] rank_indexes@[b]
                    ==> #[trigger] decode@[x].num_bits == b,
        decreases bs.len() - symbol,
    {
        let b = bits[symbol];
        if b != 0 {
            let ghost cnt = count_bits(bs, b as nat, symbol as int);
            let ghost l = pow2((mb - b) as nat);
            let ghost start = rank_start(bs, mb, b as nat);
            proof {
                lemma_count_bits_mono(bs, b as nat, symbol + 1, bs.len() as int);
                lemma_rank_start_mono(bs, mb, 0, (b - 1) as nat);
                assert(rank_start(bs, mb, (b - 1) as nat) == start + count_bits(bs, b as nat, bs.len() as int) * l);
                assert(start + (cnt + 1) * l <= rank_start(bs, mb, (b - 1) as nat)) by (nonlinear_arith)
                    requires
                        cnt + 1 <= count_bits(bs, b as nat, bs.len() as int),
                        rank_start(bs, mb, (b - 1) as nat) == start + count_bits(bs, b as nat, bs.len() as int) * l,
                        l >= 0,
                ;
                assert((cnt + 1) * l == cnt * l + l) by (nonlinear_arith);
                lemma_shl_pow2((max_bits - b) as nat);
                lemma_pow2_pos((mb - b) as nat);
            }
            let base_idx = rank_indexes[b as usize];
            let len = 1usize << (max_bits - b);
            rank_indexes.set(b as usize, base_idx + len);
            let ghost d0 = decode@;
            let mut idx: usize = 0;
            while idx < len
                invariant
                    decode@.len() == ts,
                    base_idx == start + cnt * l,
                    len == l,
                    base_idx + len <= rank_start(bs, mb, (b - 1) as nat),
                    rank_start(bs, mb, (b - 1) as nat) <= ts,
                    ts <= 2048,
                    idx <= len,
                    forall|k: int| 0 <= k < idx ==> #[trigger] decode@[base_idx + k] == (Entry { symbol: symbol as u8, num_bits: b }),
                    forall|x: int| 0 <= x < ts && !(base_idx <= x < base_idx + idx) ==> #[trigger] decode@[x] == d0[x],
                decreases len - idx,
            {
                decode.set(base_idx + idx, Entry { symbol: symbol as u8, num_bits: b });
                idx = idx + 1;
            }
            proof {
                assert forall|bb: int| 1 <= bb <= max_bits implies #[trigger] rank_indexes@[bb] == rank_start(bs, mb, bb as nat)
                    + count_bits(bs, bb as nat, symbol + 1) * pow2((mb - bb) as nat) by {
                    if bb == b {
                        assert(count_bits(bs, bb as nat, symbol + 1) == cnt + 1);
                    }
                }
                assert forall|s: int, k: int|
                    0 <= s < symbol + 1 && bs[s] >= 1 && 0 <= k < pow2((mb - bs[s]) as nat) implies #[trigger] decode@[rank_start(
                        bs,
                        mb,
                        bs[s] as nat,
                    ) + count_bits(bs, bs[s] as nat, s) * pow2((mb - bs[s]) as nat) + k]
                        == (Entry { symbol: s as u8, num_bits: bs[s] }) by {
                    if s < symbol {
                        let bb = bs[s] as nat;
                        let ll = pow2((mb - bb) as nat);
                        let cs = count_bits(bs, bb, s);
                        let p = rank_start(bs, mb, bb) + cs * ll + k;
                        lemma_rank_start_mono(bs, mb, 0, (bb - 1) as nat);
                        lemma_count_bits_mono(bs, bb, s + 1, symbol as int);
                        assert(p >= rank_start(bs, mb, bb)) by (nonlinear_arith)
                            requires p == rank_start(bs, mb, bb) + cs * ll + k, k >= 0, cs >= 0, ll >= 0;
                        lemma_count_bits_mono(bs, bb, s + 1, bs.len() as int);
                        assert(p < rank_start(bs, mb, (bb - 1) as nat)) by (nonlinear_arith)
                            requires
                                p == rank_start(bs, mb, bb) + cs * ll + k,
                                k < ll,
                                cs + 1 <= count_bits(bs, bb, bs.len() as int),
                                rank_start(bs, mb, (bb - 1) as nat) == rank_start(bs, mb, bb) + count_bits(bs, bb, bs.len() as int) * ll;
                        if bb == b {
                            assert(cs + 1 <= cnt);
                            assert(p < base_idx) by (nonlinear_arith)
                                requires p == start + cs * ll + k, k < ll, cs + 1 <= cnt, base_idx == start + cnt * ll, ll == l;
                        } else if bb > b {
                            lemma_rank_start_mono(bs, mb, b as nat, (bb - 1) as nat);
                        } else {
                            lemma_rank_start_mono(bs, mb, bb, (b - 1) as nat);
                        }
                        assert(decode@[p] == d0[p]);
                    } else {
                        assert(count_bits(bs, bs[s] as nat, s) == cnt);
                    }
                }
                assert forall|bb: int, x: int|
                    1 <= bb <= max_bits && rank_start(bs, mb, bb as nat) <= x < #[trigger] rank_indexes@[bb]
                        implies #[trigger] decode@[x].num_bits == bb by {
                    if bb == b {
                        if x >= base_idx {
                            assert(decode@[base_idx + (x - base_idx)] == (Entry { symbol: symbol as u8, num_bits: b }));
                        } else {
                            assert(decode@[x] == d0[x]);
                        }
                    } else {
                        lemma_rank_start_mono(bs, mb, 0, (bb - 1) as nat);
                        lemma_count_bits_mono(bs, bb as nat, symbol + 1, bs.len() as int);
                        assert(rank_indexes@[bb] <= rank_start(bs, mb, (bb - 1) as nat)) by (nonlinear_arith)
                            requires
                                rank_indexes@[bb] == rank_start(bs, mb, bb as nat) + count_bits(bs, bb as nat, symbol + 1) * pow2((mb - bb) as nat),
                                count_bits(bs, bb as nat, symbol + 1) <= count_bits(bs, bb as nat, bs.len() as int),
                                rank_start(bs, mb, (bb - 1) as nat) == rank_start(bs, mb, bb as nat) + count_bits(bs, bb as nat, bs.len() as int) * pow2((mb - bb) as nat);
                        if bb > b {
                            lemma_rank_start_mono(bs, mb, b as nat, (bb - 1) as nat);
                        } else {
                            lemma_rank_start_mono(bs, mb, bb as nat, (b - 1) as nat);
                        }
                        assert(decode@[x] == d0[x]);
                    }
                }
            }
        } else {
            proof {
                assert forall|bb: int| 1 <= bb <= max_bits implies #[trigger] rank_indexes@[bb] == rank_start(bs, mb, bb as nat)
                    + count_bits(bs, bb as nat, symbol + 1) * pow2((mb - bb) as nat) by {
                    assert(count_bits(bs, bb as nat, symbol + 1) == count_bits(bs, bb as nat, symbol as int));
                }
            }
        }
        symbol = symbol + 1;
    }
    proof {
        assert forall|x: int| 0 <= x < decode@.len() implies 1 <= (#[trigger] decode@[x]).num_bits <= mb by {
            lemma_find_group(bs, mb, x, 1);
            let g = choose|g: nat| 1 <= g <= mb && #[trigger] rank_start(bs, mb, g) <= x < rank_start(bs, mb, (g - 1) as nat);
            assert(rank_indexes@[g as int] == rank_start(bs, mb, (g - 1) as nat));
        }
    }
}

/// Where the padding at the top of a reversed stream ends: reading down from
/// bit `r`, at most 8 bits, the first 1 bit ends it; `k` bits are read so far.
pub open spec fn padding_end(s: Seq<u8>, r: int, k: nat) -> Option<int>
    decreases 8 - k,
{
    if k >= 8 {
        None
    } else if bit_at_rev(s, r) == 1 {
        Some(r - 1)
    } else {
        padding_end(s, r - 1, k + 1)
    }
}

/// The bit just below position `r`.
pub open spec fn bit_at_rev(s: Seq<u8>, r: int) -> nat {
    bits_value(s, r - 1, 1)
}

/// The weights that two interleaved FSE decoders read from `s` below bit `r`,
/// in states `st1` and `st2`, appended to `acc`: each takes a turn giving its
/// symbol and moving on, until the stream runs out; then the other gives its
/// symbol and the weights end. More than 255 weights before that fails.
pub open spec fn fse_weights(
    s: Seq<u8>,
    table: Seq<super::fse::Entry>,
    r: int,
    st1: super::fse::Entry,
    st2: super::fse::Entry,
    acc: Seq<u8>,
) -> Option<Seq<u8>>
    decreases 300 - acc.len(),
{
    if acc.len() > 256 {
        None
    } else {
        let acc1 = acc.push(st1.symbol);
        let r1 = r - st1.num_bits;
        let n1 = table[st1.base_line + bits_value(s, r1, st1.num_bits as nat)];
        if r1 <= -1 {
            Some(acc1.push(st2.symbol))
        } else {
            let acc2 = acc1.push(st2.symbol);
            let r2 = r1 - st2.num_bits;
            let n2 = table[st2.base_line + bits_value(s, r2, st2.num_bits as nat)];
            if r2 <= -1 {
                Some(acc2.push(n1.symbol))
            } else if acc2.len() > 255 {
                None
            } else {
                fse_weights(s, table, r2, n1, n2, acc2)
            }
        }
    }
}

/// The weights of a tree description whose header byte is below 128: an FSE
/// table description, then the weights encoded with it in a reversed stream;
/// the header gives their total length.
pub open spec fn fse_weights_spec(source: Seq<u8>) -> Option<Seq<u8>> {
    let header = source[0] as int;
    let fse_stream = source.subrange(1, source.len() as int);
    if header > fse_stream.len() {
        None
    } else {
        match super::fse::read_probabilities_spec(fse_stream, 6, 255) {
            None => None,
            Some((acc, probs, used)) => if used > header {
                None
            } else {
                let comp = fse_stream.subrange(used as int, header);
                let table = super::fse::fse_table_of(probs, acc);
                match padding_end(comp, (8 * comp.len()) as int, 0) {
                    None => None,
                    Some(r1) => {
                        let st1 = table[bits_value(comp, r1 - acc, acc) as int];
                        let st2 = table[bits_value(comp, r1 - 2 * acc, acc) as int];
                        fse_weights(comp, table, r1 - 2 * acc, st1, st2, Seq::empty())
                    },
                }
            },
        }
    }
}

/// The number of bytes `n` half-bytes take.
pub open spec fn half_bytes(n: nat) -> nat {
    (n + 1) / 2
}

/// The weights of a tree description, and the bytes it takes. A header of
/// 128 or more stores `header - 127` weights directly, two per byte, high
/// half first.
pub open spec fn read_weights_spec(source: Seq<u8>) -> Option<(Seq<u8>, nat)> {
    if source.len() == 0 {
        None
    } else if source[0] < 128 {
        match fse_weights_spec(source) {
            None => None,
            Some(ws) => Some((ws, 1 + source[0] as nat)),
        }
    } else {
        let n = (source[0] - 127) as nat;
        if source.len() - 1 < half_bytes(n) {
            None
        } else {
            Some(
                (
                    Seq::new(
                        n,
                        |i: int|
                            if i % 2 == 0 {
                                source[1 + i / 2] >> 4
                            } else {
                                source[1 + i / 2] & 0x0f
                            },
                    ),
                    1 + half_bytes(n),
                ),
            )
        }
    }
}

pub struct HuffmanTable {
    decode: Vec<Entry>,
    weights: Vec<u8>,
    pub max_num_bits: u8,
    bits: Vec<u8>,
    bit_ranks: Vec<u32>,
    rank_indexes: Vec<usize>,
    fse_table: FSETable,
}

impl HuffmanTable {
    /// The decoding table.
    pub closed spec fn decode_seq(&self) -> Seq<Entry> {
        self.decode@
    }

    /// The weights last read.
    pub closed spec fn weights_seq(&self) -> Seq<u8> {
        self.weights@
    }

    /// The code lengths last laid out.
    pub closed spec fn bits_seq(&self) -> Seq<u8> {
        self.bits@
    }

    /// The longest code length.
    pub closed spec fn max_bits(&self) -> nat {
        self.max_num_bits as nat
    }

    /// The longest code length, as the field `max_num_bits` holds it.
    pub fn longest_code(&self) -> (n: u8)
        ensures
            n == self.max_bits(),
    {
        self.max_num_bits
    }

    /// The weight tables are read with symbols up to 255.
    pub closed spec fn wf(&self) -> bool {
        self.fse_table.max_symbol == 255
    }

    /// A table decoders can walk: `2^max_bits` slots, each with a code
    /// length between 1 and `max_bits`.
    pub open spec fn ready(&self) -> bool {
        &&& 1 <= self.max_bits() <= MAX_MAX_NUM_BITS
        &&& self.decode_seq().len() == pow2(self.max_bits())
        &&& forall|x: int| 0 <= x < self.decode_seq().len() ==> 1 <= (#[trigger] self.decode_seq()[x]).num_bits <= self.max_bits()
    }

    pub fn new() -> (t: HuffmanTable)
        ensures
            t.wf(),
            t.decode_seq().len() == 0,
            t.weights_seq().len() == 0,
            t.max_bits() == 0,
    {
        HuffmanTable {
            decode: Vec::new(),
            weights: Vec::with_capacity(256),
            max_num_bits: 0,
            bits: Vec::with_capacity(256),
            bit_ranks: Vec::with_capacity(11),
            rank_indexes: Vec::with_capacity(11),
            fse_table: FSETable::new(255),
        }
    }

    pub fn reset(&mut self)
        requires
            old(self).wf(),
        ensures
            final(self).wf(),
            final(self).decode_seq().len() == 0,
            final(self).weights_seq().len() == 0,
            final(self).max_bits() == 0,
    {
        self.decode.clear();
        self.weights.clear();
        self.max_num_bits = 0;
        self.bits.clear();
        self.bit_ranks.clear();
        self.rank_indexes.clear();
        self.fse_table.reset();
    }

    fn read_weights(&mut self, source: &[u8]) -> (r: Option<u32>)
        requires
            old(self).wf(),
            12 * source@.len() <= usize::MAX,
        ensures
            final(self).wf(),
            final(self).decode_seq() == old(self).decode_seq(),
            match read_weights_spec(source@) {
                None => r is None,
                Some((ws, bytes)) => r == Some(bytes as u32) && final(self).weights_seq() == ws,
            },
            r is Some ==> final(self).weights_seq().len() <= 258,
    {
        if source.len() == 0 {
            return None;
        }
        let header = source[0];
        let mut bits_read: u32 = 8;
        if header < 128 {
            let fse_stream = &source[1..source.len()];
            if header as usize > fse_stream.len() {
                return None;
            }
            let bytes_used_by_fse_header = match self.fse_table.build_decoder(fse_stream, 6) {
                Some(b) => b,
                None => return None,
            };
            if bytes_used_by_fse_header > header as usize {
                return None;
            }
            let ghost acc = self.fse_table.accuracy_log as nat;
            let ghost probs = self.fse_table.symbol_probabilities@;
            let ghost table = self.fse_table.decode@;
            proof {
                let sp = super::fse::read_probabilities_spec(fse_stream@, 6, 255);
                assert(sp is Some);
                let s = fse_stream@;
                let a: nat = (super::fse::ACC_LOG_OFFSET + bits_value(s, 0, 4)) as nat;
                lemma_bits_value_bound(s, 0, 4);
                assert(pow2(4) == 16) by {
                    lemma2_to64();
                }
                assert(acc == a);
                lemma_pow2_increases_le(acc, 20);
                assert(pow2(20) == 0x10_0000) by {
                    lemma2_to64();
                }
                super::fse::lemma_probs_valid(s, acc);
                super::fse::lemma_table_is_table_of(table, probs, acc);
            }
            let compressed_start = bytes_used_by_fse_header;
            let compressed_length = header as usize - bytes_used_by_fse_header;
            let rest = &fse_stream[compressed_start..fse_stream.len()];
            if rest.len() < compressed_length {
                return None;
            }
            let compressed_weights = &rest[0..compressed_length];
            let ghost s = compressed_weights@;
            assert(s == fse_stream@.subrange(compressed_start as int, header as int));
            let mut br = BitReaderReversed::new(compressed_weights);
            bits_read = bits_read + ((bytes_used_by_fse_header + compressed_length) as u32) * 8;
            let ghost top: int = (8 * s.len()) as int;
            let mut skipped: u32 = 0;
            loop
                invariant_except_break
                    br.wf(),
                    br.src() == s,
                    br.read_floor() <= -128,
                    top >= 0,
                    skipped <= 8,
                    br.remaining() == top - skipped,
                    padding_end(s, top, 0) == padding_end(s, top - skipped, skipped as nat),
                ensures
                    br.wf(),
                    br.src() == s,
                    br.read_floor() <= -128,
                    1 <= skipped <= 9,
                    br.remaining() == top - skipped,
                    skipped <= 8 ==> padding_end(s, top, 0) == Some(top - skipped),
                    skipped > 8 ==> padding_end(s, top, 0) is None,
                decreases 9 - skipped,
            {
                let val = br.get_bits(1);
                skipped = skipped + 1;
                if val == 1 || skipped > 8 {
                    break;
                }
            }
            if skipped > 8 {
                return None;
            }
            let fse_table = &self.fse_table;
            let mut dec1 = FSEDecoder::new(fse_table);
            let mut dec2 = FSEDecoder::new(fse_table);
            let ghost r1 = br.remaining();
            match dec1.init_state(&mut br) {
                Some(_) => {},
                None => return None,
            }
            match dec2.init_state(&mut br) {
                Some(_) => {},
                None => return None,
            }
            let ghost whole = fse_weights(s, table, br.remaining(), dec1.state, dec2.state, Seq::empty());
            proof {
                assert(r1 - acc - acc == r1 - 2 * acc);
                assert(source@.subrange(1, source@.len() as int) =~= fse_stream@);
                let sp = super::fse::read_probabilities_spec(fse_stream@, 6, 255);
                assert(sp == Some((acc, probs, bytes_used_by_fse_header as nat)));
                assert(super::fse::fse_table_of(probs, acc) == table);
                assert(padding_end(s, top, 0) == Some(r1));
                assert(fse_stream@.subrange(bytes_used_by_fse_header as int, header as int) == s);
                assert(fse_weights_spec(source@) == whole);
            }
            self.weights.clear();
            loop
                invariant_except_break
                    br.remaining() >= -64,
                    self.weights@.len() <= 254,
                    self.weights@.len() % 2 == 0,
                    whole == fse_weights(s, table, br.remaining(), dec1.state, dec2.state, self.weights@),
                invariant
                    source@.len() >= 1,
                    source@[0] == header,
                    header < 128,
                    br.wf(),
                    br.src() == s,
                    br.read_floor() <= -128,
                    dec1.wf(),
                    dec2.wf(),
                    dec1.table().decode@ == table,
                    dec2.table().decode@ == table,
                    dec1.table().accuracy_log == acc,
                    whole == fse_weights_spec(source@),
                    self.fse_table.max_symbol == 255,
                    self.decode@ == old(self).decode@,
                    acc <= 20,
                ensures
                    whole == Some(self.weights@),
                    self.weights@.len() <= 258,
                    self.fse_table.max_symbol == 255,
                    self.decode@ == old(self).decode@,
                decreases 300 - self.weights@.len(),
            {
                let w = dec1.decode_symbol();
                self.weights.push(w);
                dec1.update_state(&mut br);
                if br.bits_remaining() <= -1 {
                    self.weights.push(dec2.decode_symbol());
                    break;
                }
                let w = dec2.decode_symbol();
                self.weights.push(w);
                dec2.update_state(&mut br);
                if br.bits_remaining() <= -1 {
                    self.weights.push(dec1.decode_symbol());
                    break;
                }
                if self.weights.len() > 255 {
                    assert(whole is None);
                    return None;
                }
            }
        } else {
            let weights_raw = &source[1..source.len()];
            let num_weights = header - 127;
            self.weights.resize(num_weights as usize, 0);
            let bytes_needed = if num_weights % 2 == 0 {
                num_weights as usize / 2
            } else {
                (num_weights as usize / 2) + 1
            };
            if weights_raw.len() < bytes_needed {
                return None;
            }
            let mut idx: u8 = 0;
            while idx < num_weights
                invariant
                    num_weights == header - 127,
                    source@.len() >= 1,
                    1 <= num_weights <= 128,
                    weights_raw@ == source@.subrange(1, source@.len() as int),
                    weights_raw@.len() >= bytes_needed,
                    bytes_needed == half_bytes(num_weights as nat),
                    idx <= num_weights,
                    self.weights@.len() == num_weights,
                    bits_read == 8 + 4 * idx,
                    forall|i: int| 0 <= i < idx ==> #[trigger] self.weights@[i] == if i % 2 == 0 {
                        source@[1 + i / 2] >> 4
                    } else {
                        source@[1 + i / 2] & 0x0f
                    },
                    self.fse_table.max_symbol == 255,
                    self.decode@ == old(self).decode@,
                decreases num_weights - idx,
            {
                assert(weights_raw@[(idx / 2) as int] == source@[1 + (idx / 2) as int]);
                if idx % 2 == 0 {
                    self.weights.set(idx as usize, weights_raw[idx as usize / 2] >> 4);
                } else {
                    self.weights.set(idx as usize, weights_raw[idx as usize / 2] & 0x0F);
                }
                bits_read = bits_read + 4;
                idx = idx + 1;
            }
            proof {
                let ws = read_weights_spec(source@).unwrap().0;
                assert(self.weights@ =~= ws);
            }
        }
        let bytes_read = if bits_read % 8 == 0 {
            bits_read / 8
        } else {
            (bits_read / 8) + 1
        };
        Some(bytes_read)
    }
}

impl HuffmanTable {
    fn build_table_from_weights(&mut self) -> (r: Option<()>)
        requires
            old(self).wf(),
            old(self).weights_seq().len() <= 300,
        ensures
            final(self).wf(),
            final(self).weights_seq() == old(self).weights_seq(),
            match huffman_build_spec(old(self).weights_seq()) {
                None => r is None,
                Some((mb, bits)) => {
                    &&& r is Some
                    &&& final(self).max_bits() == mb
                    &&& final(self).bits_seq() == bits
                    &&& huffman_table_matches(final(self).decode_seq(), bits, mb)
                    &&& final(self).ready()
                },
            },
    {
        let max_bits = match layout_bits(&self.weights, &mut self.bits) {
            Some(m) => m,
            None => return None,
        };
        self.max_num_bits = max_bits;
        count_ranks(&self.bits, &mut self.bit_ranks, max_bits);
        proof {
            lemma_shl_pow2(max_bits as nat);
        }
        self.decode.clear();
        self.decode.resize(1usize << max_bits, Entry { symbol: 0, num_bits: 0 });
        fill_rank_indexes(&self.bit_ranks, &mut self.rank_indexes, max_bits, Ghost(self.bits@));
        if self.rank_indexes[0] != self.decode.len() {
            return None;
        }
        fill_decode(&mut self.decode, &self.bits, &mut self.rank_indexes, max_bits);
        Some(())
    }

    /// Read the Huffman tree description from `source`, build the decoding
    /// table, and return the number of bytes consumed by the tree description.
    pub fn build_decoder(&mut self, source: &[u8]) -> (r: Option<u32>)
        requires
            old(self).wf(),
            12 * source@.len() <= usize::MAX,
        ensures
            final(self).wf(),
            match huffman_tree_spec(source@) {
                None => r is None,
                Some((bytes, mb, bits)) => {
                    &&& r == Some(bytes as u32)
                    &&& final(self).max_bits() == mb
                    &&& huffman_table_matches(final(self).decode_seq(), bits, mb)
                    &&& final(self).ready()
                },
            },
    {
        self.decode.clear();
        let bytes_used = match self.read_weights(source) {
            Some(b) => b,
            None => return None,
        };
        match self.build_table_from_weights() {
            Some(_) => {},
            None => return None,
        }
        Some(bytes_used)
    }
}

/// What a tree description at the start of `source` gives: the bytes it
/// takes, the longest code length, and the code lengths.
pub open spec fn huffman_tree_spec(source: Seq<u8>) -> Option<(nat, nat, Seq<u8>)> {
    match read_weights_spec(source) {
        None => None,
        Some((ws, bytes)) => match huffman_build_spec(ws) {
            None => None,
            Some((mb, bits)) => Some((bytes, mb, bits)),
        },
    }
}

impl Default for HuffmanTable {
    fn default() -> (t: Self)
        ensures
            t.wf(),
            t.decode_seq().len() == 0,
            t.max_bits() == 0,
    {
        Self::new()
    }
}

/// A parse of a tree description stays within the ranges its sums are
/// computed in: at most 256 weights, each at most 32, summing below 2^31.
pub open spec fn parse_tree_in_range(data: Seq<u8>) -> bool {
    read_weights_spec(data) matches Some((ws, _)) ==> {
        &&& ws.len() <= 256
        &&& forall|i: int| 0 <= i < ws.len() ==> #[trigger] ws[i] <= 32
        &&& kraft_sum(ws, ws.len() as int) < 0x8000_0000
    }
}

/// The full weights of a tree description, the implied last weight
/// included, padded with zeros to 256, and the bytes the description takes.
pub open spec fn parse_tree_spec(data: Seq<u8>) -> Option<(Seq<u8>, nat)> {
    match read_weights_spec(data) {
        None => None,
        Some((ws, bytes)) => {
            let sum = kraft_sum(ws, ws.len() as int);
            if sum == 0 {
                None
            } else {
                let left = (pow2(hbs(sum)) - sum) as nat;
                if !is_pow2(left) {
                    None
                } else if ws.len() >= 256 {
                    None
                } else {
                    Some(
                        (
                            Seq::new(
                                256,
                                |i: int|
                                    if i < ws.len() {
                                        ws[i]
                                    } else if i == ws.len() {
                                        hbs(left) as u8
                                    } else {
                                        0u8
                                    },
                            ),
                            bytes,
                        ),
                    )
                }
            }
        },
    }
}

proof fn lemma_kraft_sum_mono(ws: Seq<u8>, a: int, b: int)
    requires
        0 <= a <= b,
    ensures
        kraft_sum(ws, a) <= kraft_sum(ws, b),
    decreases b - a,
{
    if a < b {
        lemma_kraft_sum_mono(ws, a, b - 1);
    }
}

/// Parses a Huffman tree description from a Zstd literals section.
///
/// Returns the full weights vector (including the implied last weight) and the
/// number of bytes consumed by the tree description.
pub fn parse_tree(data: &[u8]) -> (r: Option<([u8; 256], usize)>)
    requires
        12 * data@.len() <= usize::MAX,
        parse_tree_in_range(data@),
    ensures
        match parse_tree_spec(data@) {
            None => r is None,
            Some((ws, bytes)) => r is Some && r.unwrap().0@ == ws && r.unwrap().1 as nat == bytes,
        },
{
    let mut table = HuffmanTable::new();
    let bytes_read = match table.read_weights(data) {
        Some(b) => b,
        None => return None,
    };
    let ghost ws = table.weights@;
    let mut weights = [0u8; 256];
    let n = table.weights.len();
    let mut i: usize = 0;
    while i < n
        invariant
            n == ws.len(),
            ws == table.weights@,
            n <= 256,
            i <= n,
            weights@.len() == 256,
            forall|j: int| 0 <= j < i ==> #[trigger] weights@[j] == ws[j],
            forall|j: int| i <= j < 256 ==> #[trigger] weights@[j] == 0,
        decreases n - i,
    {
        weights[i] = table.weights[i];
        i = i + 1;
    }
    let mut weight_sum: u32 = 0;
    let mut k: usize = 0;
    while k < n
        invariant
            n == ws.len(),
            ws == table.weights@,
            n <= 256,
            k <= n,
            forall|j: int| 0 <= j < n ==> #[trigger] ws[j] <= 32,
            kraft_sum(ws, n as int) < 0x8000_0000,
            weight_sum == kraft_sum(ws, k as int),
        decreases n - k,
    {
        let w = table.weights[k];
        proof {
            lemma_kraft_sum_mono(ws, k + 1, n as int);
            if w > 0 {
                lemma_shl_pow2((w - 1) as nat);
                lemma_pow2_increases_le((w - 1) as nat, 31);
            }
        }
        weight_sum = weight_sum + if w > 0 {
            1u32 << (w - 1)
        } else {
            0
        };
        k = k + 1;
    }
    if weight_sum == 0 {
        return None;
    }
    proof {
        lemma_hbs_bounds(weight_sum as nat);
        assert(pow2(31) == 0x8000_0000) by {
            lemma2_to64();
        }
        if hbs(weight_sum as nat) > 31 {
            lemma_pow2_increases_le(31, (hbs(weight_sum as nat) - 1) as nat);
        }
    }
    let max_bits = highest_bit_set(weight_sum);
    proof {
        lemma_shl_pow2(max_bits as nat);
    }
    let left_over = (1u32 << max_bits) - weight_sum;
    if !is_power_of_two(left_over) {
        return None;
    }
    let last_weight = highest_bit_set(left_over);
    if n >= 256 {
        return None;
    }
    proof {
        lemma_hbs_bounds(left_over as nat);
        if last_weight > 31 {
            lemma_pow2_increases_le(31, (last_weight - 1) as nat);
        }
    }
    weights[n] = last_weight as u8;
    proof {
        let spec_ws = parse_tree_spec(data@).unwrap().0;
        assert(weights@ =~= spec_ws);
    }
    Some((weights, bytes_read as usize))
}

/// Parses a tree description as `parse_tree` does, first checking that its
/// weights stay within the ranges `parse_tree` computes in (at most 256 weights,
/// each at most 32, summing below 2^31); where they do not, returns `None`.
pub fn parse_tree_checked(data: &[u8]) -> (r: Option<([u8; 256], usize)>)
    requires
        12 * data@.len() <= usize::MAX,
    ensures
        !parse_tree_in_range(data@) ==> r is None,
        parse_tree_in_range(data@) ==> match parse_tree_spec(data@) {
            None => r is None,
            Some((ws, bytes)) => r is Some && r.unwrap().0@ == ws && r.unwrap().1 as nat == bytes,
        },
{
    let mut table = HuffmanTable::new();
    match table.read_weights(data) {
        Some(_) => {},
        None => return parse_tree(data),
    }
    let ghost ws = table.weights@;
    assert(read_weights_spec(data@).unwrap().0 == ws);
    let n = table.weights.len();
    if n > 256 {
        return None;
    }
    let mut sum: u64 = 0;
    let mut k: usize = 0;
    while k < n
        invariant
            n == ws.len(),
            ws == table.weights@,
            n <= 256,
            k <= n,
            forall|j: int| 0 <= j < k ==> #[trigger] ws[j] <= 32,
            sum == kraft_sum(ws, k as int),
            sum <= k * 0x8000_0000,
            read_weights_spec(data@) is Some,
            read_weights_spec(data@).unwrap().0 == ws,
        decreases n - k,
    {
        let w = table.weights[k];
        if w > 32 {
            proof {
                let ws2 = read_weights_spec(data@).unwrap().0;
                assert(ws2 == ws);
                assert(!(ws2[k as int] <= 32));
                assert(!parse_tree_in_range(data@));
            }
            return None;
        }
        proof {
            if w > 0 {
                lemma_shl_pow2((w - 1) as nat);
                lemma_pow2_increases_le((w - 1) as nat, 31);
                assert(pow2(31) == 0x8000_0000) by {
                    lemma2_to64();
                }
            }
        }
        let term: u64 = if w > 0 {
            (1u32 << (w - 1)) as u64
        } else {
            0
        };
        sum = sum + term;
        k = k + 1;
    }
    if sum >= 0x8000_0000 {
        return None;
    }
    parse_tree(data)
}

/// Shifting a window of `m` bits down by `nb` fresh bits gives the window at
/// the new position.
proof fn lemma_window_step(s: Seq<u8>, r: int, m: nat, nb: nat, state: u64, nw: u64)
    requires
        1 <= nb <= m <= 11,
        state as nat == bits_value(s, r, m),
        nw as nat == bits_value(s, r - nb, nb),
    ensures
        ((((state << (nb as u64)) & (((1u64 << (m as u64)) - 1) as u64)) | nw) as nat) == bits_value(s, r - nb, m),
{
    let k = (m - nb) as nat;
    let nbu = nb as u64;
    let mu = m as u64;
    let ku = k as u64;
    assert((state << nbu) & (((1u64 << mu) - 1) as u64) == (state & (((1u64 << ku) - 1) as u64)) << nbu) by (bit_vector)
        requires
            nbu <= mu,
            mu < 64,
            ku == mu - nbu,
    ;
    lemma_pow2_increases_le(m, 11);
    assert(pow2(11) == 2048) by {
        lemma2_to64();
    }
    lemma_pow2_increases_le(k, 11);
    lemma_pow2_increases_le(nb, 11);
    lemma_pow2_pos(k);
    lemma_pow2_pos(nb);
    vstd::bits::lemma_u64_shl_is_mul(1u64, ku);
    vstd::bits::lemma_u64_low_bits_mask_is_mod(state, k);
    assert(vstd::bits::low_bits_mask(k) == pow2(k) - 1);
    lemma_bits_value_concat(s, r, k, nb);
    let a = bits_value(s, r, k);
    let hi = bits_value(s, r + k, nb);
    lemma_bits_value_bound(s, r, k);
    lemma_pow2_pos(k);
    assert(state as nat == a + pow2(k) * hi);
    assert((state as nat) % pow2(k) == a) by {
        vstd::arithmetic::div_mod::lemma_mod_multiples_vanish(hi as int, a as int, pow2(k) as int);
        vstd::arithmetic::mul::lemma_mul_is_commutative(hi as int, pow2(k) as int);
        vstd::arithmetic::div_mod::lemma_small_mod(a, pow2(k));
    }
    let au = (state & (((1u64 << ku) - 1) as u64));
    assert(au as nat == a);
    lemma_pow2_adds(k, nb);
    assert(a * pow2(nb) < pow2(m)) by {
        vstd::arithmetic::mul::lemma_mul_strict_inequality(a as int, pow2(k) as int, pow2(nb) as int);
        lemma_pow2_pos(nb);
    }
    vstd::bits::lemma_u64_shl_is_mul(au, nbu);
    lemma_bits_value_bound(s, r - nb, nb);
    vstd::bits::lemma_u64_shl_is_mul(1u64, nbu);
    lemma_or_is_add(nw, au, nbu);
    assert((au << nbu) | nw == nw | (au << nbu)) by (bit_vector);
    lemma_bits_value_concat(s, r - nb, nb, k);
    vstd::arithmetic::mul::lemma_mul_is_commutative(a as int, pow2(nb) as int);
}

/// A decoder walking a Huffman table: its state is the next `max_bits` bits
/// of the stream.
pub struct HuffmanDecoder<'table> {
    pub table: &'table HuffmanTable,
    pub state: u64,
}

impl<'t> HuffmanDecoder<'t> {
    /// The table being walked.
    pub open spec fn tbl(&self) -> &'t HuffmanTable {
        self.table
    }

    pub fn new(table: &'t HuffmanTable) -> (d: HuffmanDecoder<'t>)
        ensures
            d.tbl() == table,
            d.state == 0,
    {
        HuffmanDecoder { table, state: 0 }
    }

    pub fn decode_symbol(&mut self) -> (s: u8)
        requires
            old(self).state < old(self).tbl().decode_seq().len(),
        ensures
            *final(self) == *old(self),
            s == old(self).tbl().decode_seq()[old(self).state as int].symbol,
    {
        let table_len = self.table.decode.len();
        assert(self.state < table_len);
        self.table.decode[self.state as usize].symbol
    }

    /// Reads the first `max_bits` bits as the state.
    pub fn init_state(&mut self, br: &mut BitReaderReversed<'_>) -> (n: u8)
        requires
            old(self).tbl().max_bits() <= 56,
            old(br).wf(),
            old(br).remaining() >= old(br).read_floor(),
        ensures
            final(self).tbl() == old(self).tbl(),
            n == old(self).tbl().max_bits(),
            final(br).wf(),
            final(br).src() == old(br).src(),
            final(br).remaining() == old(br).remaining() - n,
            final(self).state == bits_value(old(br).src(), final(br).remaining(), n as nat),
            old(self).tbl().ready() ==> final(self).state < old(self).tbl().decode_seq().len(),
    {
        let num_bits = self.table.max_num_bits;
        let new_bits = br.get_bits(num_bits);
        proof {
            lemma_bits_value_bound(old(br).src(), br.remaining(), num_bits as nat);
        }
        self.state = new_bits;
        num_bits
    }

    /// Takes the state's code length of fresh bits into the state.
    pub fn next_state(&mut self, br: &mut BitReaderReversed<'_>) -> (n: u8)
        requires
            old(self).state < old(self).tbl().decode_seq().len(),
            old(self).tbl().decode_seq()[old(self).state as int].num_bits <= 56,
            old(br).wf(),
            old(br).remaining() >= old(br).read_floor(),
        ensures
            final(self).tbl() == old(self).tbl(),
            n == old(self).tbl().decode_seq()[old(self).state as int].num_bits,
            final(br).wf(),
            final(br).src() == old(br).src(),
            final(br).remaining() == old(br).remaining() - n,
            old(self).tbl().ready() ==> final(self).state < old(self).tbl().decode_seq().len(),
            final(self).state == (((old(self).state << (n as u64)) & ((old(self).tbl().decode_seq().len() - 1) as u64))
                | (bits_value(old(br).src(), final(br).remaining(), n as nat) as u64)),
            old(self).tbl().ready() && old(self).state == bits_value(old(br).src(), old(br).remaining(), old(self).tbl().max_bits())
                ==> final(self).state == bits_value(old(br).src(), final(br).remaining(), old(self).tbl().max_bits()),
    {
        let ghost mb = self.table.max_num_bits as nat;
        let table_len = self.table.decode.len();
        assert(self.state < table_len);
        let num_bits = self.table.decode[self.state as usize].num_bits;
        let new_bits = br.get_bits(num_bits);
        proof {
            lemma_bits_value_bound(old(br).src(), br.remaining(), num_bits as nat);
        }
        let old_state = self.state;
        self.state = self.state << num_bits;
        self.state = self.state & (table_len as u64 - 1);
        self.state = self.state | new_bits;
        proof {
            if self.table.ready() {
                lemma_pow2_increases_le(mb, 11);
                assert(pow2(11) == 2048) by {
                    lemma2_to64();
                }
                lemma_shl_pow2(mb);
                vstd::bits::lemma_u64_shl_is_mul(1u64, mb as u64);
                lemma_pow2_increases_le(num_bits as nat, 11);
                vstd::bits::lemma_u64_shl_is_mul(1u64, num_bits as u64);
                let len = self.table.decode@.len();
                let mu = mb as u64;
                let nbu = num_bits as u64;
                assert(len as u64 - 1 == ((1u64 << mu) - 1) as u64);
                let x = old_state;
                let y = new_bits;
                assert(((x << nbu) & (((1u64 << mu) - 1) as u64)) | y < (1u64 << mu)) by (bit_vector)
                    requires
                        1 <= nbu <= mu,
                        mu <= 11,
                        y < (1u64 << nbu),
                ;
                if old_state == bits_value(old(br).src(), old(br).remaining(), mb) {
                    lemma_window_step(old(br).src(), old(br).remaining(), mb, num_bits as nat, old_state, new_bits);
                }
            }
        }
        num_bits
    }
}

/// The `k`-th slot of the code of symbol `s`.
pub open spec fn code_slot(bits: Seq<u8>, mb: nat, s: int, k: int) -> int {
    rank_start(bits, mb, bits[s] as nat) + count_bits(bits, bits[s] as nat, s) * pow2((mb - bits[s]) as nat) + k
}

/// Among the first `n` code lengths, the one of length `b` with `c` such
/// lengths before it.
pub proof fn lemma_symbol_of_rank(bits: Seq<u8>, b: nat, c: nat, n: int)
    requires
        0 <= n <= bits.len(),
        c < count_bits(bits, b, n),
    ensures
        exists|s: int| 0 <= s < n && bits[s] == b && #[trigger] count_bits(bits, b, s) == c,
    decreases n,
{
    if n > 0 {
        if c < count_bits(bits, b, n - 1) {
            lemma_symbol_of_rank(bits, b, c, n - 1);
        } else {
            assert(bits[n - 1] == b && count_bits(bits, b, n - 1) == c);
        }
    }
}

/// The slot `x` of a table that matches `bits` holds the entry of the code
/// whose slots contain it.
proof fn lemma_slot_owner(decode: Seq<Entry>, bits: Seq<u8>, mb: nat, x: int)
    requires
        huffman_table_matches(decode, bits, mb),
        mb >= 1,
        0 <= x < decode.len(),
    ensures
        exists|s: int, k: int|
            0 <= s < bits.len() && bits[s] >= 1 && 0 <= k < pow2((mb - bits[s]) as nat) && x == #[trigger] code_slot(bits, mb, s, k),
{
    lemma_find_group(bits, mb, x, 1);
    let g = choose|g: nat| 1 <= g <= mb && #[trigger] rank_start(bits, mb, g) <= x < rank_start(bits, mb, (g - 1) as nat);
    let l: int = pow2((mb - g) as nat) as int;
    lemma_pow2_pos((mb - g) as nat);
    let off = x - rank_start(bits, mb, g);
    let c = off / l;
    let k = off % l;
    vstd::arithmetic::div_mod::lemma_fundamental_div_mod(off, l);
    assert(rank_start(bits, mb, (g - 1) as nat) == rank_start(bits, mb, g) + count_bits(bits, g, bits.len() as int) * l);
    assert(c < count_bits(bits, g, bits.len() as int)) by (nonlinear_arith)
        requires
            off == l * c + k,
            0 <= k,
            off < count_bits(bits, g, bits.len() as int) * l,
            l > 0,
    ;
    assert(c >= 0) by (nonlinear_arith)
        requires
            off == l * c + k,
            k < l,
            off >= 0,
            l > 0,
    ;
    lemma_symbol_of_rank(bits, g, c as nat, bits.len() as int);
    let s = choose|s: int| 0 <= s < bits.len() && bits[s] == g && #[trigger] count_bits(bits, g, s) == c as nat;
    assert(x == code_slot(bits, mb, s, k)) by (nonlinear_arith)
        requires
            off == l * c + k,
            x == rank_start(bits, mb, g) + off,
            bits[s] == g,
            count_bits(bits, g, s) == c,
            l == pow2((mb - g) as nat),
    ;
}

/// One decoding table at most matches given code lengths: every slot
/// belongs to exactly one code, which fixes its entry.
pub proof fn law_huffman_table_unique(d1: Seq<Entry>, d2: Seq<Entry>, bits: Seq<u8>, mb: nat)
    requires
        huffman_table_matches(d1, bits, mb),
        huffman_table_matches(d2, bits, mb),
    ensures
        d1 == d2,
{
    if mb == 0 {
        assert(pow2(0) == 1) by {
            lemma2_to64();
        }
        assert(1 <= d1[0].num_bits <= 0);
    } else {
        assert forall|x: int| 0 <= x < d1.len() implies d1[x] == d2[x] by {
            lemma_slot_owner(d1, bits, mb, x);
            let (s, k) = choose|s: int, k: int|
                0 <= s < bits.len() && bits[s] >= 1 && 0 <= k < pow2((mb - bits[s]) as nat) && x == #[trigger] code_slot(bits, mb, s, k);
            assert(d1[x] == (Entry { symbol: s as u8, num_bits: bits[s] }));
            assert(d2[x] == (Entry { symbol: s as u8, num_bits: bits[s] }));
        }
        assert(d1 =~= d2);
    }
}

/// The decoding table of the code lengths `bits` with longest length `mb`.
pub open spec fn huffman_table_of(bits: Seq<u8>, mb: nat) -> Seq<Entry> {
    choose|d: Seq<Entry>| huffman_table_matches(d, bits, mb)
}

proof fn lemma_huffman_table_of(d: Seq<Entry>, bits: Seq<u8>, mb: nat)
    requires
        huffman_table_matches(d, bits, mb),
    ensures
        huffman_table_of(bits, mb) == d,
{
    let c = huffman_table_of(bits, mb);
    law_huffman_table_unique(c, d, bits, mb);
}

/// The symbols a Huffman table gives for the stream `s` read down from bit
/// `r`, appended to `acc`: the `mb` bits at the position name a slot, whose
/// symbol is emitted, and the position moves down by the slot's code length;
/// decoding ends once the position is `mb` bits past the start.
pub open spec fn huff_decode(tbl: Seq<Entry>, mb: nat, s: Seq<u8>, r: int, acc: Seq<u8>) -> Seq<u8>
    decreases if r + mb > 0 { r + mb } else { 0 },
{
    if r <= -(mb as int) {
        acc
    } else {
        let e = tbl[bits_value(s, r, mb) as int];
        if e.num_bits == 0 {
            acc
        } else {
            huff_decode(tbl, mb, s, r - e.num_bits, acc.push(e.symbol))
        }
    }
}

/// The symbols of one Huffman stream appended to `acc`: an empty stream
/// gives none; otherwise the padding at its top is skipped, then it is
/// decoded from there.
pub open spec fn stream_decode_spec(tbl: Seq<Entry>, mb: nat, stream: Seq<u8>, acc: Seq<u8>) -> Option<Seq<u8>> {
    if stream.len() == 0 {
        Some(acc)
    } else {
        match padding_end(stream, (8 * stream.len()) as int, 0) {
            None => None,
            Some(r1) => Some(huff_decode(tbl, mb, stream, r1 - mb, acc)),
        }
    }
}

/// Decodes one Huffman-coded stream into `out`.
fn decode_stream(table: &HuffmanTable, stream: &[u8], out: &mut Vec<u8>) -> (r: Option<()>)
    requires
        table.ready(),
        old(out)@.len() + 8 * stream@.len() + 64 <= usize::MAX,
        8 * stream@.len() + 256 <= isize::MAX,
    ensures
        match stream_decode_spec(table.decode_seq(), table.max_bits(), stream@, old(out)@) {
            None => r is None && final(out)@ == old(out)@,
            Some(o) => r is Some && final(out)@ == o,
        },
        final(out)@.len() <= old(out)@.len() + 8 * stream@.len() + 16,
{
    if stream.len() == 0 {
        return Some(());
    }
    let ghost s = stream@;
    let ghost tbl = table.decode_seq();
    let ghost mb = table.max_bits();
    let mut br = BitReaderReversed::new(stream);
    let ghost top: int = (8 * s.len()) as int;
    let mut skipped: u32 = 0;
    loop
        invariant_except_break
            br.wf(),
            br.src() == s,
            br.read_floor() <= -128,
            top >= 0,
            skipped <= 8,
            br.remaining() == top - skipped,
            padding_end(s, top, 0) == padding_end(s, top - skipped, skipped as nat),
        ensures
            br.wf(),
            br.src() == s,
            br.read_floor() <= -128,
            1 <= skipped <= 9,
            br.remaining() == top - skipped,
            skipped <= 8 ==> padding_end(s, top, 0) == Some(top - skipped),
            skipped > 8 ==> padding_end(s, top, 0) is None,
        decreases 9 - skipped,
    {
        let val = br.get_bits(1);
        skipped = skipped + 1;
        if val == 1 || skipped > 8 {
            break;
        }
    }
    if skipped > 8 {
        return None;
    }
    let mut decoder = HuffmanDecoder::new(table);
    decoder.init_state(&mut br);
    let ghost r0 = br.remaining();
    let ghost len0 = out@.len();
    let limit: isize = -(table.max_num_bits as isize);
    while br.bits_remaining() > limit
        invariant
            table.ready(),
            decoder.tbl() == table,
            tbl == table.decode_seq(),
            mb == table.max_bits(),
            limit == -(mb as int),
            br.wf(),
            br.src() == s,
            br.read_floor() <= -128,
            br.remaining() >= -(mb as int) - 11,
            br.remaining() <= r0,
            r0 + mb < top,
            decoder.state == bits_value(s, br.remaining(), mb),
            decoder.state < tbl.len(),
            out@.len() <= len0 + (r0 - br.remaining()),
            len0 + 8 * s.len() + 64 <= usize::MAX,
            huff_decode(tbl, mb, s, r0, old(out)@) == huff_decode(tbl, mb, s, br.remaining(), out@),
        decreases br.remaining() + mb + 11,
    {
        let ghost o0 = out@;
        let ghost rb = br.remaining();
        let ghost st = decoder.state;
        proof {
            assert(1 <= tbl[st as int].num_bits <= mb);
        }
        let sym = decoder.decode_symbol();
        out.push(sym);
        decoder.next_state(&mut br);
        proof {
            assert(huff_decode(tbl, mb, s, rb, o0) == huff_decode(tbl, mb, s, br.remaining(), out@));
        }
    }
    Some(())
}

/// A little-endian 16-bit number.
pub open spec fn le16(lo: u8, hi: u8) -> nat {
    lo as nat + 256 * hi as nat
}

/// The literals of the streams that follow a tree description, decoded with
/// `tbl`: one stream, or four whose first three lengths stand in a six-byte
/// jump table in front of them.
pub open spec fn literal_streams_spec(tbl: Seq<Entry>, mb: nat, payload: Seq<u8>, num_streams: u8) -> Option<Seq<u8>> {
    if num_streams == 1 {
        stream_decode_spec(tbl, mb, payload, Seq::empty())
    } else if num_streams == 4 {
        if payload.len() < 6 {
            None
        } else {
            let j1 = le16(payload[0], payload[1]);
            let j2 = j1 + le16(payload[2], payload[3]);
            let j3 = j2 + le16(payload[4], payload[5]);
            let sd = payload.subrange(6, payload.len() as int);
            if j3 > sd.len() {
                None
            } else {
                match stream_decode_spec(tbl, mb, sd.subrange(0, j1 as int), Seq::empty()) {
                    None => None,
                    Some(o1) => match stream_decode_spec(tbl, mb, sd.subrange(j1 as int, j2 as int), o1) {
                        None => None,
                        Some(o2) => match stream_decode_spec(tbl, mb, sd.subrange(j2 as int, j3 as int), o2) {
                            None => None,
                            Some(o3) => stream_decode_spec(tbl, mb, sd.subrange(j3 as int, sd.len() as int), o3),
                        },
                    },
                }
            }
        }
    } else {
        None
    }
}

/// Decodes the one or four streams of `payload` with `table`.
fn decode_literal_streams(table: &HuffmanTable, payload: &[u8], num_streams: u8, capacity: usize) -> (r: Option<Vec<u8>>)
    requires
        table.ready(),
        payload@.len() <= 0x20000,
    ensures
        match literal_streams_spec(table.decode_seq(), table.max_bits(), payload@, num_streams) {
            None => r is None,
            Some(o) => r is Some && r.unwrap()@ == o,
        },
{
    let mut out: Vec<u8> = Vec::with_capacity(capacity);
    if num_streams == 1 {
        match decode_stream(table, payload, &mut out) {
            Some(_) => {},
            None => return None,
        }
        return Some(out);
    }
    if num_streams != 4 {
        return None;
    }
    if payload.len() < 6 {
        return None;
    }
    let jump1 = payload[0] as usize + 256 * (payload[1] as usize);
    let jump2 = jump1 + payload[2] as usize + 256 * (payload[3] as usize);
    let jump3 = jump2 + payload[4] as usize + 256 * (payload[5] as usize);
    let streams_data = &payload[6..payload.len()];
    if jump3 > streams_data.len() {
        return None;
    }
    let s1 = &streams_data[0..jump1];
    let s2 = &streams_data[jump1..jump2];
    let s3 = &streams_data[jump2..jump3];
    let s4 = &streams_data[jump3..streams_data.len()];
    let ghost sd = streams_data@;
    assert(s1@ == sd.subrange(0, jump1 as int));
    assert(s2@ == sd.subrange(jump1 as int, jump2 as int));
    assert(s3@ == sd.subrange(jump2 as int, jump3 as int));
    assert(s4@ == sd.subrange(jump3 as int, sd.len() as int));
    match decode_stream(table, s1, &mut out) {
        Some(_) => {},
        None => return None,
    }
    match decode_stream(table, s2, &mut out) {
        Some(_) => {},
        None => return None,
    }
    match decode_stream(table, s3, &mut out) {
        Some(_) => {},
        None => return None,
    }
    match decode_stream(table, s4, &mut out) {
        Some(_) => {},
        None => return None,
    }
    Some(out)
}

/// The literals of a Huffman-coded literals section: at most 128 KiB of
/// input and of output; a tree description, then the streams, which must
/// give exactly `num_literals` symbols.
pub open spec fn decode_literals_spec(data: Seq<u8>, num_literals: nat, num_streams: u8) -> Option<Seq<u8>> {
    if num_literals > 0x20000 || data.len() > 0x20000 {
        None
    } else if num_literals == 0 {
        Some(Seq::empty())
    } else {
        match huffman_tree_spec(data) {
            None => None,
            Some((bytes, mb, bits)) => if bytes >= data.len() {
                None
            } else {
                match literal_streams_spec(
                    huffman_table_of(bits, mb),
                    mb,
                    data.subrange(bytes as int, data.len() as int),
                    num_streams,
                ) {
                    None => None,
                    Some(o) => if o.len() != num_literals {
                        None
                    } else {
                        Some(o)
                    },
                }
            },
        }
    }
}

/// Decodes Huffman-compressed literals from a Zstd literals section payload.
///
/// `data` contains the tree description followed by the coded literal stream(s).
/// `num_literals` is the expected total number of decoded literals.
/// `num_streams` is the number of interleaved Huffman streams (1 or 4).
pub fn decode_literals(data: &[u8], num_literals: usize, num_streams: u8) -> (r: Option<Vec<u8>>)
    ensures
        match decode_literals_spec(data@, num_literals as nat, num_streams) {
            None => r is None,
            Some(o) => r is Some && r.unwrap()@ == o,
        },
{
    if num_literals > 128 * 1024 {
        return None;
    }
    if data.len() > 128 * 1024 {
        return None;
    }
    if num_literals == 0 {
        return Some(Vec::new());
    }
    let mut table = HuffmanTable::new();
    let tree_bytes = match table.build_decoder(data) {
        Some(b) => b,
        None => return None,
    };
    if tree_bytes as usize >= data.len() {
        return None;
    }
    let ghost tree = huffman_tree_spec(data@).unwrap();
    proof {
        lemma_huffman_table_of(table.decode_seq(), tree.2, tree.1);
    }
    let payload = &data[tree_bytes as usize..data.len()];
    let out = match decode_literal_streams(&table, payload, num_streams, num_literals) {
        Some(o) => o,
        None => return None,
    };
    if out.len() != num_literals {
        return None;
    }
    Some(out)
}

} // verus!
