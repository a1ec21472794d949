//! Finite State Entropy (FSE) decoder used for Huffman weight decompression.
use vstd::prelude::*;
use vstd::set_lib::{set_int_range, lemma_int_range, lemma_map_size, lemma_subset_equality, lemma_len_subset};
use vstd::relations::injective_on;
use vstd::arithmetic::power2::{pow2, lemma_pow2_unfold, lemma_pow2_pos, lemma2_to64, lemma_pow2_adds, lemma_pow2_strictly_increases};
use super::bit_io::{BitReader, BitReaderReversed, bits_value, lemma_bits_value_bound};

verus! {

/// Number of bits needed to write `x` (zero for zero).
pub open spec fn hbs(x: nat) -> nat
    decreases x,
{
    if x == 0 {
        0
    } else {
        1 + hbs(x / 2)
    }
}

/// `x` lies between the powers of two its bit count names.
pub proof fn lemma_hbs_bounds(x: nat)
    ensures
        x < pow2(hbs(x)),
        x > 0 ==> pow2((hbs(x) - 1) as nat) <= x,
    decreases x,
{
    if x == 0 {
        lemma2_to64();
    } else {
        lemma_hbs_bounds(x / 2);
        lemma_pow2_unfold(hbs(x));
        if x / 2 > 0 {
            lemma_pow2_unfold((hbs(x) - 1) as nat);
        } else {
            lemma2_to64();
        }
    }
}

/// The bit count of `x` is the one `k` with `2^(k-1) <= x < 2^k`.
pub proof fn lemma_hbs_unique(x: nat, k: nat)
    requires
        x < pow2(k),
        k > 0 ==> pow2((k - 1) as nat) <= x,
    ensures
        hbs(x) == k,
{
    lemma_hbs_bounds(x);
    if hbs(x) < k {
        lemma_pow2_increases_le(hbs(x), (k - 1) as nat);
    } else if hbs(x) > k {
        lemma_pow2_increases_le(k, (hbs(x) - 1) as nat);
    }
}

pub proof fn lemma_pow2_increases_le(a: nat, b: nat)
    requires
        a <= b,
    ensures
        pow2(a) <= pow2(b),
{
    if a < b {
        lemma_pow2_strictly_increases(a, b);
    }
}

/// Bit count of a power of two.
pub proof fn lemma_hbs_pow2(k: nat)
    ensures
        hbs(pow2(k)) == k + 1,
{
    lemma_pow2_unfold(k + 1);
    lemma_pow2_pos(k);
    lemma_hbs_unique(pow2(k), k + 1);
}

/// Number of bits needed to write `x` (zero for zero).
fn highest_bit_set(x: u32) -> (r: u32)
    ensures
        r == hbs(x as nat),
        r <= 32,
{
    let mut y = x;
    let mut n: u32 = 0;
    proof {
        lemma_hbs_bounds(x as nat);
        assert(pow2(32) == 0x1_0000_0000) by {
            vstd::arithmetic::power2::lemma2_to64();
        }
        if hbs(x as nat) > 32 {
            lemma_pow2_increases_le(32, (hbs(x as nat) - 1) as nat);
        }
    }
    while y != 0
        invariant
            n + hbs(y as nat) == hbs(x as nat),
            hbs(x as nat) <= 32,
        decreases y,
    {
        y = y / 2;
        n = n + 1;
    }
    n
}

/// Where the spread of symbols over a table of `table_size` slots goes next.
pub open spec fn spread_step(table_size: nat) -> nat {
    table_size / 2 + table_size / 8 + 3
}

/// An accuracy log from 1 to 20 where the spread step is odd, so that the
/// spread visits every slot once. (At logs 1 and 3 the step is a multiple of
/// the table size and the spread never leaves slot 0: see
/// `slot_zero_distribution`.)
pub open spec fn table_log_ok(acc: nat) -> bool {
    &&& 1 <= acc <= 20
    &&& spread_step(pow2(acc)) % 2 == 1
}

/// `1 << k` is two to the `k`.
pub proof fn lemma_shl_pow2(k: nat)
    requires
        k < 32,
    ensures
        (1usize << (k as usize)) == pow2(k),
        (1u32 << (k as u32)) == pow2(k),
{
    lemma_pow2_increases_le(k, 31);
    assert(pow2(31) == 0x8000_0000) by {
        lemma2_to64();
    }
    vstd::bits::lemma_u32_shl_is_mul(1u32, k as u32);
    let kk = k as usize;
    let kk32 = k as u32;
    assert((1usize << kk) == (1u32 << kk32) as usize) by (bit_vector)
        requires
            kk < 32,
            kk32 == kk,
    ;
}

fn next_position(p: usize, table_size: usize, Ghost(acc): Ghost<nat>) -> (r: usize)
    requires
        table_size == pow2(acc),
        1 <= acc <= 20,
        p < table_size,
    ensures
        r == (p + spread_step(table_size as nat)) % (table_size as int),
        r < table_size,
{
    assert(table_size >> 1 == table_size / 2 && table_size >> 3 == table_size / 8) by (bit_vector);
    proof {
        lemma_shl_pow2(acc);
        lemma_pow2_increases_le(acc, 20);
        assert(pow2(20) == 0x10_0000) by {
            lemma2_to64();
        }
        lemma_pow2_pos(acc);
        let x = (p + spread_step(table_size as nat)) as usize;
        vstd::bits::lemma_usize_low_bits_mask_is_mod(x, acc);
        assert(vstd::bits::low_bits_mask(acc) == pow2(acc) - 1);
    }
    let mut q = p + (table_size >> 1) + (table_size >> 3) + 3;
    q = q & (table_size - 1);
    q
}

/// Base line and bit count of the state with number `t` (counted among the
/// states of its symbol) for a symbol that holds `p` of the `2^acc` states:
/// the symbol's states are cut into as many slices as the power of two just
/// at or above `p`; the first `slices - p` states take double slices.
pub open spec fn calc_spec(acc: nat, p: nat, t: nat) -> (nat, nat) {
    if p == 0 {
        (0, 0)
    } else {
        let slices = if pow2((hbs(p) - 1) as nat) == p {
            p
        } else {
            pow2(hbs(p))
        };
        let dbl = (slices - p) as nat;
        let single = (p - dbl) as nat;
        let width = pow2(acc) / slices;
        let nb = (hbs(width) - 1) as nat;
        if t < dbl {
            (single * width + t * width * 2, nb + 1)
        } else {
            (((t - dbl) as nat) * width, nb)
        }
    }
}

/// The states a symbol's state `t` moves to all lie in the table, and are
/// read with at most `acc` bits.
pub proof fn lemma_calc_bounds(acc: nat, p: nat, t: nat)
    requires
        acc <= 20,
        0 < p <= pow2(acc),
        t < p,
    ensures
        calc_spec(acc, p, t).0 + pow2(calc_spec(acc, p, t).1) <= pow2(acc),
        calc_spec(acc, p, t).1 <= acc,
{
    lemma_calc_shape(acc, p);
    let slices = if pow2((hbs(p) - 1) as nat) == p { p } else { pow2(hbs(p)) };
    let w = pow2(acc) / slices;
    let dbl = (slices - p) as nat;
    let single = (p - dbl) as nat;
    if t < dbl {
        assert(single * w + t * w * 2 + w * 2 <= slices * w) by (nonlinear_arith)
            requires
                t < dbl,
                single + 2 * dbl == slices,
        ;
    } else {
        assert((((t - dbl) as nat) * w) + w <= slices * w) by (nonlinear_arith)
            requires
                t - dbl < single,
                single <= slices,
                t >= dbl,
        ;
    }
    let nb = calc_spec(acc, p, t).1;
    if nb > acc {
        lemma_pow2_strictly_increases(acc, nb);
    }
}

/// The states a symbol's state `t` moves to in a table of `2^acc` states
/// include `x`.
pub open spec fn calc_covers(acc: nat, p: nat, t: nat, x: nat) -> bool {
    calc_spec(acc, p, t).0 <= x < calc_spec(acc, p, t).0 + pow2(calc_spec(acc, p, t).1)
}

/// The slices a symbol's states are cut into, and the width of each.
proof fn lemma_calc_shape(acc: nat, p: nat)
    requires
        acc <= 20,
        0 < p <= pow2(acc),
    ensures
        ({
            let slices = if pow2((hbs(p) - 1) as nat) == p { p } else { pow2(hbs(p)) };
            let width = pow2(acc) / slices;
            &&& p <= slices <= 2 * p
            &&& width > 0
            &&& slices * width == pow2(acc)
            &&& pow2((hbs(width) - 1) as nat) == width
            &&& pow2((hbs(width) - 1) as nat + 1) == 2 * width
        }),
{
    let h = hbs(p);
    lemma_hbs_bounds(p);
    let m: nat = if pow2((h - 1) as nat) == p { (h - 1) as nat } else { h };
    let slices = pow2(m);
    assert(slices == if pow2((h - 1) as nat) == p { p } else { pow2(h) });
    assert(m <= acc) by {
        if m > acc {
            lemma_pow2_strictly_increases(acc, m);
            if pow2((h - 1) as nat) != p {
                if (h - 1) as nat >= acc {
                    lemma_pow2_increases_le(acc, (h - 1) as nat);
                }
                lemma_pow2_increases_le((h - 1) as nat + 0, acc);
            }
        }
    }
    assert(slices <= 2 * p) by {
        lemma_pow2_unfold(h);
    }
    let w = pow2((acc - m) as nat);
    lemma_pow2_adds((acc - m) as nat, m);
    lemma_pow2_pos(m);
    lemma_pow2_pos((acc - m) as nat);
    assert(pow2(acc) / slices == w) by {
        vstd::arithmetic::div_mod::lemma_div_multiples_vanish(w as int, slices as int);
        vstd::arithmetic::mul::lemma_mul_is_commutative(w as int, slices as int);
    }
    vstd::arithmetic::mul::lemma_mul_is_commutative(w as int, slices as int);
    lemma_hbs_pow2((acc - m) as nat);
    lemma_pow2_unfold((acc - m) as nat + 1);
}

/// Two ranges `[a*w, a*w + w)` and `[b*w, b*w + w)` that share a point are the same.
proof fn lemma_same_slice(a: nat, b: nat, w: nat, x: nat)
    requires
        w > 0,
        a * w <= x < a * w + w,
        b * w <= x < b * w + w,
    ensures
        a == b,
{
    if a < b {
        assert(a * w + w <= b * w) by (nonlinear_arith)
            requires
                a + 1 <= b,
        ;
    } else if b < a {
        assert(b * w + w <= a * w) by (nonlinear_arith)
            requires
                b + 1 <= a,
        ;
    }
}

/// A point below `n * w` lies in the range `[a*w, a*w + w)` for some `a < n`.
proof fn lemma_slice_of(x: nat, w: nat, n: nat) -> (a: nat)
    requires
        w > 0,
        x < n * w,
    ensures
        a < n,
        a * w <= x < a * w + w,
{
    let a = x / w;
    vstd::arithmetic::div_mod::lemma_fundamental_div_mod(x as int, w as int);
    vstd::arithmetic::div_mod::lemma_mod_bound(x as int, w as int);
    vstd::arithmetic::mul::lemma_mul_is_commutative(w as int, a as int);
    assert(a < n) by (nonlinear_arith)
        requires
            a * w <= x,
            x < n * w,
            w > 0,
    ;
    a
}

/// The states that a symbol's `p` states move to cover the table of `2^acc`
/// states once: every state `x` of the table lies in the range
/// `[base, base + 2^bits)` of exactly one of the symbol's states.
pub proof fn law_calc_ranges_partition_table(acc: nat, p: nat, x: nat)
    requires
        acc <= 20,
        0 < p <= pow2(acc),
        x < pow2(acc),
    ensures
        exists|t: nat| t < p && #[trigger] calc_covers(acc, p, t, x),
        forall|t1: nat, t2: nat|
            t1 < p && t2 < p && #[trigger] calc_covers(acc, p, t1, x) && #[trigger] calc_covers(acc, p, t2, x)
                ==> t1 == t2,
{
    lemma_calc_shape(acc, p);
    let slices = if pow2((hbs(p) - 1) as nat) == p { p } else { pow2(hbs(p)) };
    let w = pow2(acc) / slices;
    let dbl = (slices - p) as nat;
    let single = (p - dbl) as nat;
    let w2 = 2 * w;
    assert(single * w + dbl * w2 == pow2(acc)) by (nonlinear_arith)
        requires
            slices * w == pow2(acc),
            single + 2 * dbl == slices,
            w2 == 2 * w,
    ;
    assert forall|t: nat| t < p implies #[trigger] calc_covers(acc, p, t, x) == (if t < dbl {
        single * w + t * w2 <= x < single * w + t * w2 + w2
    } else {
        ((t - dbl) as nat) * w <= x < ((t - dbl) as nat) * w + w
    }) by {
        assert(t * w * 2 == t * w2) by (nonlinear_arith)
            requires
                w2 == 2 * w,
        ;
    }
    if x < single * w {
        let a = lemma_slice_of(x, w, single);
        let t = dbl + a;
        assert(calc_covers(acc, p, t, x));
    } else {
        let y = (x - single * w) as nat;
        let a = lemma_slice_of(y, w2, dbl);
        assert(calc_covers(acc, p, a, x));
    }
    assert forall|t1: nat, t2: nat|
        t1 < p && t2 < p && #[trigger] calc_covers(acc, p, t1, x) && #[trigger] calc_covers(acc, p, t2, x)
        implies t1 == t2 by {
        if t1 < dbl && t2 < dbl {
            lemma_same_slice(t1, t2, w2, (x - single * w) as nat);
        } else if t1 >= dbl && t2 >= dbl {
            lemma_same_slice((t1 - dbl) as nat, (t2 - dbl) as nat, w, x);
        } else {
            let s = if t1 < dbl { t2 } else { t1 };
            assert(((s - dbl) as nat) * w + w <= single * w) by (nonlinear_arith)
                requires
                    (s - dbl) < single,
                    s >= dbl,
            ;
        }
    }
}

fn calc_baseline_and_numbits(
    num_states_total: u32,
    num_states_symbol: u32,
    state_number: u32,
    Ghost(acc): Ghost<nat>,
) -> (r: (u32, u8))
    requires
        num_states_symbol > 0 ==> {
            &&& acc <= 20
            &&& num_states_total == pow2(acc)
            &&& num_states_symbol <= num_states_total
            &&& state_number < num_states_symbol || (num_states_total <= 8 && state_number < num_states_total)
        },
    ensures
        r.0 == calc_spec(acc, num_states_symbol as nat, state_number as nat).0,
        r.1 == calc_spec(acc, num_states_symbol as nat, state_number as nat).1,
{
    if num_states_symbol == 0 {
        return (0, 0);
    }
    proof {
        if state_number < num_states_symbol {
            lemma_calc_bounds(acc, num_states_symbol as nat, state_number as nat);
        }
        lemma_hbs_bounds(num_states_symbol as nat);
        lemma_pow2_increases_le(acc, 20);
        assert(pow2(20) == 0x10_0000) by {
            lemma2_to64();
        }
    }
    let h = highest_bit_set(num_states_symbol);
    proof {
        assert(h <= 21) by {
            if h > 21 {
                lemma_pow2_increases_le(21, (h - 1) as nat);
                assert(pow2(21) == 0x20_0000) by {
                    lemma2_to64();
                }
            }
        }
        lemma_pow2_unfold(h as nat);
        lemma_shl_pow2((h - 1) as nat);
        lemma_shl_pow2(h as nat);
    }
    let num_state_slices = if 1u32 << (h - 1) == num_states_symbol {
        num_states_symbol
    } else {
        1u32 << h
    };
    let ghost slices_spec = if pow2((h - 1) as nat) == num_states_symbol as nat {
        num_states_symbol as nat
    } else {
        pow2(h as nat)
    };
    assert(num_state_slices == slices_spec);
    proof {
        // the slice count is at most the table size, so the width is at least one
        if pow2((h - 1) as nat) != num_states_symbol as nat {
            assert(pow2(h as nat) <= pow2(acc)) by {
                if h > acc {
                    lemma_pow2_increases_le(acc, (h - 1) as nat);
                }
                lemma_pow2_increases_le(h as nat, acc);
            }
        }
        lemma_pow2_pos(h as nat);
    }
    let num_double_width_state_slices = num_state_slices - num_states_symbol;
    let num_single_width_state_slices = num_states_symbol - num_double_width_state_slices;
    let slice_width = num_states_total / num_state_slices;
    proof {
        vstd::arithmetic::div_mod::lemma_fundamental_div_mod(num_states_total as int, num_state_slices as int);
        vstd::arithmetic::div_mod::lemma_mod_pos_bound(num_states_total as int, num_state_slices as int);
        assert(slice_width >= 1) by {
            if slice_width == 0 {
                assert(num_state_slices * slice_width == 0) by (nonlinear_arith)
                    requires slice_width == 0;
            }
        }
    }
    proof {
        lemma_hbs_bounds(slice_width as nat);
        lemma2_to64();
    }
    let num_bits = highest_bit_set(slice_width) - 1;
    if state_number < num_double_width_state_slices {
        assert(num_single_width_state_slices * slice_width + state_number * slice_width * 2
            <= num_state_slices * slice_width) by (nonlinear_arith)
            requires
                state_number < num_double_width_state_slices,
                num_single_width_state_slices + 2 * num_double_width_state_slices == num_state_slices,
        ;
        assert(num_state_slices * slice_width <= num_states_total) by {
            vstd::arithmetic::div_mod::lemma_fundamental_div_mod(num_states_total as int, num_state_slices as int);
            vstd::arithmetic::mul::lemma_mul_is_commutative(num_state_slices as int, slice_width as int);
        }
        let baseline = num_single_width_state_slices * slice_width + state_number * slice_width * 2;
        (baseline, num_bits as u8 + 1)
    } else {
        let index_shifted = state_number - num_double_width_state_slices;
        proof {
            if state_number < num_states_symbol {
                assert(index_shifted * slice_width <= num_state_slices * slice_width) by (nonlinear_arith)
                    requires
                        index_shifted < num_state_slices,
                ;
                assert(num_state_slices * slice_width <= num_states_total) by {
                    vstd::arithmetic::div_mod::lemma_fundamental_div_mod(num_states_total as int, num_state_slices as int);
                    vstd::arithmetic::mul::lemma_mul_is_commutative(num_state_slices as int, slice_width as int);
                }
            } else {
                assert(slice_width <= num_states_total) by (nonlinear_arith)
                    requires
                        num_states_total == num_state_slices * slice_width + num_states_total % num_state_slices,
                        num_state_slices >= 1,
                        num_states_total % num_state_slices >= 0,
                ;
                assert(index_shifted * slice_width <= 64) by (nonlinear_arith)
                    requires
                        index_shifted < 8,
                        slice_width <= 8,
                ;
            }
        }
        (index_shifted * slice_width, num_bits as u8)
    }
}

/// The accuracy log of a table header is this much more than the 4 bits that store it.
pub const ACC_LOG_OFFSET: u8 = 5;

/// The next value of a table header at bit `pos`, when `counter` of the `sum`
/// states are already given out: the value and the position after it.
///
/// Values take `b` bits, `b` being the bit count of `sum - counter + 1`; the
/// smallest values also fit in `b - 1` bits and are written so.
pub open spec fn prob_value(s: Seq<u8>, pos: int, counter: int, sum: int) -> Option<(int, int)> {
    let mrv = sum - counter + 1;
    let b = hbs(mrv as nat);
    if pos + b > 8 * s.len() {
        None
    } else {
        let u = bits_value(s, pos, b) as int;
        let low = pow2(b) - 1 - mrv;
        let half = pow2((b - 1) as nat) as int;
        let small = u % half;
        if small < low {
            Some((small, pos + b - 1))
        } else if u > half - 1 {
            Some((u - low, pos + b))
        } else {
            Some((u, pos + b))
        }
    }
}

/// The probabilities a table header gives from bit `pos` on, appended to
/// `acc`, and the position after them. `counter` of the `sum` states are
/// given out; the header ends when all are. A value of zero is followed by
/// 2-bit counts of further zero probabilities, repeated while a count is 3
/// (`zero_run` marks that a count is due).
pub open spec fn probs_from(
    s: Seq<u8>,
    pos: int,
    counter: int,
    sum: int,
    acc: Seq<i32>,
    zero_run: bool,
) -> Option<(Seq<i32>, int)>
    decreases 8 * s.len() - pos,
{
    if pos < 0 || pos > 8 * s.len() {
        None
    } else if zero_run {
        if pos + 2 > 8 * s.len() {
            None
        } else {
            let k = bits_value(s, pos, 2);
            probs_from(s, pos + 2, counter, sum, acc + Seq::new(k, |i: int| 0i32), k == 3)
        }
    } else if counter >= sum {
        Some((acc, pos))
    } else {
        match prob_value(s, pos, counter, sum) {
            None => None,
            Some((v, np)) => {
                proof {
                    reveal_with_fuel(hbs, 3);
                }
                if np <= pos {
                    None
                } else if v - 1 == 0 {
                    probs_from(s, np, counter, sum, acc.push(0i32), true)
                } else if v - 1 > 0 {
                    probs_from(s, np, counter + v - 1, sum, acc.push((v - 1) as i32), false)
                } else if v - 1 == -1 {
                    probs_from(s, np, counter + 1, sum, acc.push(-1i32), false)
                } else {
                    None
                }
            },
        }
    }
}

/// What the table header at the start of `s` gives, read with a bound of
/// `max_log` on the accuracy log and of `max_symbol` on the symbols: the
/// accuracy log, the probabilities, and the number of bytes the header takes.
pub open spec fn read_probabilities_spec(s: Seq<u8>, max_log: nat, max_symbol: nat) -> Option<
    (nat, Seq<i32>, nat),
> {
    if 8 * s.len() < 4 {
        None
    } else {
        let acc: nat = (ACC_LOG_OFFSET + bits_value(s, 0, 4)) as nat;
        if acc > max_log {
            None
        } else {
            match probs_from(s, 4, 0, pow2(acc) as int, Seq::empty(), false) {
                None => None,
                Some((probs, pos)) => if probs.len() > max_symbol + 1 {
                    None
                } else {
                    Some((acc, probs, ((pos + 7) / 8) as nat))
                },
            }
        }
    }
}

/// Each probability read takes at least one bit and gives out no more states
/// than remain.
proof fn lemma_prob_value(s: Seq<u8>, pos: int, counter: int, sum: int)
    requires
        0 <= counter < sum <= 0x10_0000,
    ensures
        prob_value(s, pos, counter, sum) matches Some((v, np)) ==> {
            &&& pos < np
            &&& 0 <= v <= sum - counter + 1
        },
{
    let mrv = sum - counter + 1;
    let b = hbs(mrv as nat);
    lemma_hbs_bounds(mrv as nat);
    reveal_with_fuel(hbs, 3);
    assert(b >= 2);
    lemma_pow2_unfold(b);
    if pos + b <= 8 * s.len() {
        let u = bits_value(s, pos, b) as int;
        lemma_bits_value_bound(s, pos, b);
        let half = pow2((b - 1) as nat) as int;
        lemma_pow2_pos((b - 1) as nat);
        vstd::arithmetic::div_mod::lemma_mod_bound(u, half);
    }
}

#[derive(Copy, Clone, Debug)]
pub struct Entry {
    pub base_line: u32,
    pub num_bits: u8,
    pub symbol: u8,
}

#[derive(Debug)]
pub struct FSETable {
    pub max_symbol: u8,
    pub decode: Vec<Entry>,
    pub accuracy_log: u8,
    pub symbol_probabilities: Vec<i32>,
    pub symbol_counter: Vec<u32>,
}

impl FSETable {
    /// The largest symbol the table accepts.
    pub closed spec fn max_sym(&self) -> nat {
        self.max_symbol as nat
    }

    pub fn new(max_symbol: u8) -> (t: FSETable)
        ensures
            t.max_symbol == max_symbol,
            t.decode@.len() == 0,
            t.accuracy_log == 0,
            t.symbol_probabilities@.len() == 0,
    {
        FSETable {
            max_symbol,
            symbol_probabilities: Vec::with_capacity(256),
            symbol_counter: Vec::with_capacity(256),
            decode: Vec::new(),
            accuracy_log: 0,
        }
    }

    pub fn reset(&mut self)
        ensures
            final(self).max_symbol == old(self).max_symbol,
            final(self).decode@.len() == 0,
            final(self).accuracy_log == 0,
            final(self).symbol_probabilities@.len() == 0,
    {
        self.symbol_counter.clear();
        self.symbol_probabilities.clear();
        self.decode.clear();
        self.accuracy_log = 0;
    }

    /// Runs of zero probabilities add up to three entries per two bits read, so the
    /// probability list stays within one and a half entries per bit of `source`; the
    /// bound on the length of `source` keeps that count within `usize`.
    fn read_probabilities(&mut self, source: &[u8], max_log: u8) -> (r: Option<usize>)
        requires
            12 * source@.len() <= usize::MAX,
        ensures
            final(self).max_sym() == old(self).max_sym(),
            final(self).decode == old(self).decode,
            match read_probabilities_spec(source@, max_log as nat, old(self).max_sym()) {
                None => r is None,
                Some((acc, probs, bytes)) => {
                    &&& r is Some && r.unwrap() as nat == bytes
                    &&& final(self).accuracy_log == acc
                    &&& final(self).symbol_probabilities@ == probs
                },
            },
    {
        self.symbol_probabilities.clear();
        let ghost s = source@;
        let mut br = BitReader::new(source);
        let a = match br.get_bits(4) {
            Some(v) => v,
            None => return None,
        };
        proof {
            lemma_bits_value_bound(s, 0, 4);
            assert(pow2(4) == 16) by {
                lemma2_to64();
            }
        }
        self.accuracy_log = ACC_LOG_OFFSET + (a as u8);
        if self.accuracy_log > max_log {
            return None;
        }
        if self.accuracy_log == 0 {
            return None;
        }
        let ghost acc = self.accuracy_log as nat;
        proof {
            lemma_shl_pow2(acc);
            lemma_pow2_increases_le(acc, 20);
            assert(pow2(20) == 0x10_0000) by {
                lemma2_to64();
            }
        }
        let probability_sum: u32 = 1u32 << self.accuracy_log;
        let mut probability_counter: u32 = 0;
        let ghost whole = probs_from(s, 4, 0, pow2(acc) as int, Seq::empty(), false);
        assert(acc == ACC_LOG_OFFSET + bits_value(s, 0, 4));
        assert(whole is None ==> read_probabilities_spec(s, max_log as nat, self.max_sym()) is None);
        assert(self.symbol_probabilities@ =~= Seq::<i32>::empty());
        while probability_counter < probability_sum
            invariant
                br.wf(),
                br.src() == s,
                12 * s.len() <= usize::MAX,
                4 <= br.pos() <= 8 * s.len(),
                probability_sum == pow2(acc),
                probability_sum <= 0x10_0000,
                probability_counter <= probability_sum,
                2 * self.symbol_probabilities@.len() <= 3 * br.pos(),
                whole == probs_from(s, br.pos(), probability_counter as int, probability_sum as int,
                    self.symbol_probabilities@, false),
                self.max_sym() == old(self).max_sym(),
                self.decode == old(self).decode,
                self.accuracy_log == acc,
                whole is None ==> read_probabilities_spec(s, max_log as nat, old(self).max_sym()) is None,
                s == source@,
            decreases 8 * s.len() - br.pos(),
        {
            let ghost pos0 = br.pos();
            let ghost probs0 = self.symbol_probabilities@;
            proof {
                lemma_prob_value(s, pos0, probability_counter as int, probability_sum as int);
            }
            let max_remaining_value = probability_sum - probability_counter + 1;
            let bits_to_read = highest_bit_set(max_remaining_value);
            proof {
                lemma_hbs_bounds(max_remaining_value as nat);
                reveal_with_fuel(hbs, 3);
                assert(bits_to_read <= 21) by {
                    if bits_to_read > 21 {
                        lemma_pow2_increases_le(21, (bits_to_read - 1) as nat);
                        assert(pow2(21) == 0x20_0000) by {
                            lemma2_to64();
                        }
                    }
                }
                lemma_shl_pow2(bits_to_read as nat);
                lemma_shl_pow2((bits_to_read - 1) as nat);
                lemma_pow2_unfold(bits_to_read as nat);
            }
            let got = br.get_bits(bits_to_read as usize);
            let unchecked = match got {
                Some(v) => v,
                None => {
                    assert(prob_value(s, pos0, probability_counter as int, probability_sum as int) is None);
                    assert(whole is None);
                    return None;
                },
            };
            proof {
                lemma_bits_value_bound(s, pos0, bits_to_read as nat);
            }
            let unchecked_value = unchecked as u32;
            let low_threshold = ((1u32 << bits_to_read) - 1) - max_remaining_value;
            let mask = (1u32 << (bits_to_read - 1)) - 1;
            let small_value = unchecked_value & mask;
            proof {
                vstd::bits::lemma_u32_low_bits_mask_is_mod(unchecked_value, (bits_to_read - 1) as nat);
                vstd::arithmetic::power2::lemma_pow2_pos((bits_to_read - 1) as nat);
            }
            let value = if small_value < low_threshold {
                br.return_bits(1);
                small_value
            } else if unchecked_value > mask {
                unchecked_value - low_threshold
            } else {
                unchecked_value
            };
            let prob = (value as i32) - 1;
            self.symbol_probabilities.push(prob);
            if prob != 0 {
                if prob > 0 {
                    probability_counter = probability_counter + prob as u32;
                } else if prob == -1 {
                    probability_counter = probability_counter + 1;
                } else {
                    return None;
                }
            } else {
                loop
                    invariant_except_break
                        whole == probs_from(s, br.pos(), probability_counter as int,
                            probability_sum as int, self.symbol_probabilities@, true),
                    invariant
                        br.wf(),
                        br.src() == s,
                        12 * s.len() <= usize::MAX,
                        pos0 < br.pos() <= 8 * s.len(),
                        probability_sum == pow2(acc),
                        probability_sum <= 0x10_0000,
                        probability_counter < probability_sum,
                        2 * self.symbol_probabilities@.len() <= 3 * br.pos(),
                        self.max_sym() == old(self).max_sym(),
                        self.decode == old(self).decode,
                        self.accuracy_log == acc,
                        whole is None ==> read_probabilities_spec(s, max_log as nat, old(self).max_sym()) is None,
                        s == source@,
                s == source@,
                    ensures
                        br.wf(),
                        br.src() == s,
                        pos0 < br.pos() <= 8 * s.len(),
                        2 * self.symbol_probabilities@.len() <= 3 * br.pos(),
                        whole == probs_from(s, br.pos(), probability_counter as int,
                            probability_sum as int, self.symbol_probabilities@, false),
                        self.max_sym() == old(self).max_sym(),
                        self.decode == old(self).decode,
                        self.accuracy_log == acc,
                    decreases 8 * s.len() - br.pos(),
                {
                    let ghost p1 = br.pos();
                    let ghost probs1 = self.symbol_probabilities@;
                    let skip = match br.get_bits(2) {
                        Some(v) => v,
                        None => {
                            assert(whole is None);
                            return None;
                        },
                    };
                    proof {
                        lemma_bits_value_bound(s, p1, 2);
                        assert(pow2(2) == 4) by {
                            lemma2_to64();
                        }
                    }
                    let skip_amount = skip as usize;
                    let new_len = self.symbol_probabilities.len() + skip_amount;
                    self.symbol_probabilities.resize(new_len, 0);
                    proof {
                        assert forall|i: int| probs1.len() <= i < new_len implies
                            #[trigger] self.symbol_probabilities@[i] == 0i32 by {
                            assert(cloned::<i32>(0i32, self.symbol_probabilities@[i]));
                        }
                        assert(self.symbol_probabilities@ =~= probs1 + Seq::new(
                            skip_amount as nat,
                            |i: int| 0i32,
                        ));
                    }
                    if skip_amount != 3 {
                        break;
                    }
                }
            }
        }
        if probability_counter != probability_sum {
            return None;
        }
        if self.symbol_probabilities.len() > self.max_symbol as usize + 1 {
            return None;
        }
        let bits_read = br.bits_read();
        let bytes_read = if bits_read % 8 == 0 {
            bits_read / 8
        } else {
            (bits_read / 8) + 1
        };
        Some(bytes_read)
    }
}

/// Sum of the positive probabilities of the first `n` symbols.
pub open spec fn pos_sum(probs: Seq<i32>, n: int) -> int
    decreases n,
{
    if n <= 0 {
        0
    } else {
        pos_sum(probs, n - 1) + if probs[n - 1] > 0 {
            probs[n - 1] as int
        } else {
            0
        }
    }
}

/// Number of the first `n` symbols whose probability is -1 ("less than one").
pub open spec fn neg_count(probs: Seq<i32>, n: int) -> int
    decreases n,
{
    if n <= 0 {
        0
    } else {
        neg_count(probs, n - 1) + if probs[n - 1] == -1 {
            1int
        } else {
            0
        }
    }
}

/// The probabilities give out exactly the `2^acc` states of a table: each is
/// at least -1, and a -1 takes one state.
pub open spec fn distribution_sums(probs: Seq<i32>, acc: nat) -> bool {
    &&& probs.len() <= 256
    &&& forall|x: int| 0 <= x < probs.len() ==> #[trigger] probs[x] >= -1
    &&& pos_sum(probs, probs.len() as int) + neg_count(probs, probs.len() as int) == pow2(acc)
}

/// A distribution over a table whose spread visits every slot.
pub open spec fn valid_distribution(probs: Seq<i32>, acc: nat) -> bool {
    &&& table_log_ok(acc)
    &&& distribution_sums(probs, acc)
}

/// A distribution over a table at accuracy log 1 or 3, where the spread never
/// leaves slot 0, so that the slots above it keep symbol 0. Where symbol 0 has
/// probability -1 and such a slot exists, the state of that slot would be
/// computed from the probability -1 taken as an unsigned number, which
/// overflows a shift; those distributions are left out.
pub open spec fn slot_zero_distribution(probs: Seq<i32>, acc: nat) -> bool {
    &&& acc == 1 || acc == 3
    &&& distribution_sums(probs, acc)
    &&& probs[0] == -1 ==> pos_sum(probs, probs.len() as int) <= 1
}

/// The last of the first `n` symbols with a positive probability (0 if none).
pub open spec fn last_positive(probs: Seq<i32>, n: int) -> int
    decreases n,
{
    if n <= 0 {
        0
    } else if probs[n - 1] > 0 {
        n - 1
    } else {
        last_positive(probs, n - 1)
    }
}

/// Where the spread stays on slot 0, slot 0 ends with the last symbol of
/// positive probability and the other slots below `neg` keep symbol 0.
pub open spec fn slot_zero_spread(decode: Seq<Entry>, probs: Seq<i32>, neg: int) -> bool {
    forall|x: int|
        0 <= x < neg ==> (#[trigger] decode[x]).symbol == if x == 0 {
            last_positive(probs, probs.len() as int) as u8
        } else {
            0u8
        }
}

/// The decoding table that `probs` give at accuracy log 1 or 3.
pub open spec fn slot_zero_table_matches(decode: Seq<Entry>, probs: Seq<i32>, acc: nat) -> bool {
    let neg = pow2(acc) - neg_count(probs, probs.len() as int);
    &&& decode.len() == pow2(acc)
    &&& negative_slots_placed(decode, probs, acc, probs.len() as int)
    &&& slot_zero_spread(decode, probs, neg)
    &&& states_assigned(decode, probs, acc, neg)
}

/// The spread step at logs 1 and 3 is a multiple of the table size.
proof fn lemma_slot_zero_logs(acc: nat)
    requires
        acc == 1 || acc == 3,
    ensures
        !table_log_ok(acc),
        spread_step(pow2(acc)) % pow2(acc) == 0,
        pow2(acc) <= 8,
{
    lemma2_to64();
}

/// The last symbol of positive probability lies among the first `n`, and has
/// a positive probability where any of them does.
proof fn lemma_last_positive(probs: Seq<i32>, n: int)
    requires
        0 < n <= probs.len(),
    ensures
        0 <= last_positive(probs, n) < n,
        pos_sum(probs, n) > 0 ==> probs[last_positive(probs, n)] > 0,
    decreases n,
{
    if probs[n - 1] > 0 {
    } else if n == 1 {
        assert(last_positive(probs, 0) == 0);
        assert(pos_sum(probs, 0) == 0);
    } else {
        lemma_last_positive(probs, n - 1);
    }
}

/// The slot that the `i`-th step of the spread lands on.
pub open spec fn cyc(ts: nat, i: int) -> int {
    (i * spread_step(ts)) % (ts as int)
}

/// How many of the first `i` steps of the spread land below `neg`.
pub open spec fn low_rank(ts: nat, neg: int, i: int) -> nat
    decreases i,
{
    if i <= 0 {
        0
    } else {
        low_rank(ts, neg, i - 1) + if cyc(ts, i - 1) < neg {
            1nat
        } else {
            0
        }
    }
}

/// How many of the first `n` entries hold symbol `s`.
pub open spec fn count_sym(syms: Seq<u8>, s: u8, n: int) -> nat
    decreases n,
{
    if n <= 0 {
        0
    } else {
        count_sym(syms, s, n - 1) + if syms[n - 1] == s {
            1nat
        } else {
            0
        }
    }
}

/// The symbol that the `j`-th slot of the spread goes to: symbols take their
/// positive probabilities' worth of slots, in order.
pub open spec fn spread_symbol(probs: Seq<i32>, j: int) -> int {
    choose|s: int| 0 <= s < probs.len() && #[trigger] pos_sum(probs, s) <= j < pos_sum(probs, s + 1)
}

proof fn lemma_odd_factor(d: int, o: int, k: nat)
    requires
        d > 0,
        o > 0,
        o % 2 == 1,
        (d * o) % (pow2(k) as int) == 0,
    ensures
        d % (pow2(k) as int) == 0,
    decreases k,
{
    if k > 0 {
        let pk = pow2((k - 1) as nat) as int;
        lemma_pow2_unfold(k);
        lemma_pow2_pos((k - 1) as nat);
        let x = d * o;
        vstd::arithmetic::div_mod::lemma_fundamental_div_mod(x, 2 * pk);
        let q = x / (2 * pk);
        assert(x == 2 * (pk * q)) by (nonlinear_arith)
            requires
                x == (2 * pk) * q + x % (2 * pk),
                x % (2 * pk) == 0,
        ;
        assert(d % 2 == 0) by {
            if d % 2 != 0 {
                vstd::arithmetic::div_mod::lemma_fundamental_div_mod(d, 2);
                vstd::arithmetic::div_mod::lemma_fundamental_div_mod(o, 2);
                let a = d / 2;
                let b = o / 2;
                assert(d * o == 2 * (2 * a * b + a + b) + 1) by (nonlinear_arith)
                    requires
                        d == 2 * a + 1,
                        o == 2 * b + 1,
                ;
                assert(false);
            }
        }
        vstd::arithmetic::div_mod::lemma_fundamental_div_mod(d, 2);
        let e = d / 2;
        assert(e * o == pk * q) by (nonlinear_arith)
            requires
                d == 2 * e,
                d * o == 2 * (pk * q),
        ;
        assert(e > 0);
        vstd::arithmetic::div_mod::lemma_mod_multiples_basic(q, pk);
        vstd::arithmetic::mul::lemma_mul_is_commutative(pk, q);
        lemma_odd_factor(e, o, (k - 1) as nat);
        vstd::arithmetic::div_mod::lemma_fundamental_div_mod(e, pk);
        let r = e / pk;
        assert(d == (2 * pk) * r) by (nonlinear_arith)
            requires
                d == 2 * e,
                e == pk * r + e % pk,
                e % pk == 0,
        ;
        vstd::arithmetic::div_mod::lemma_mod_multiples_basic(r, 2 * pk);
        vstd::arithmetic::mul::lemma_mul_is_commutative(r, 2 * pk);
    } else {
        lemma2_to64();
    }
}

/// The spread step is odd at the accuracy logs tables are built at.
proof fn lemma_step_odd(acc: nat)
    requires
        table_log_ok(acc),
    ensures
        spread_step(pow2(acc)) % 2 == 1,
{
}

/// Accuracy logs from 4 to 20 have an odd spread step.
pub proof fn lemma_log_ok(acc: nat)
    requires
        4 <= acc <= 20,
    ensures
        table_log_ok(acc),
{
    lemma_pow2_adds(4, (acc - 4) as nat);
    assert(pow2(4) == 16) by {
        lemma2_to64();
    }
    let m = pow2((acc - 4) as nat);
    assert(pow2(acc) == 16 * m);
    assert((16 * m) / 2 == 8 * m && (16 * m) / 8 == 2 * m);
}

/// Distinct steps of a full round of the spread land on distinct slots.
pub proof fn lemma_cyc_injective(acc: nat, i: int, j: int)
    requires
        table_log_ok(acc),
        0 <= i < j < pow2(acc),
    ensures
        cyc(pow2(acc), i) != cyc(pow2(acc), j),
{
    let ts = pow2(acc) as int;
    let st = spread_step(pow2(acc)) as int;
    lemma_step_odd(acc);
    if cyc(pow2(acc), i) == cyc(pow2(acc), j) {
        vstd::arithmetic::div_mod::lemma_fundamental_div_mod(i * st, ts);
        vstd::arithmetic::div_mod::lemma_fundamental_div_mod(j * st, ts);
        let qi = (i * st) / ts;
        let qj = (j * st) / ts;
        assert((j - i) * st == ts * (qj - qi)) by (nonlinear_arith)
            requires
                i * st == ts * qi + (i * st) % ts,
                j * st == ts * qj + (j * st) % ts,
                (i * st) % ts == (j * st) % ts,
        ;
        vstd::arithmetic::div_mod::lemma_mod_multiples_basic(qj - qi, ts);
        vstd::arithmetic::mul::lemma_mul_is_commutative(qj - qi, ts);
        lemma_odd_factor(j - i, st, acc);
        vstd::arithmetic::div_mod::lemma_small_mod((j - i) as nat, ts as nat);
    }
}

/// Every slot is reached in a full round of the spread.
pub proof fn lemma_cyc_surjective(acc: nat, x: int)
    requires
        table_log_ok(acc),
        0 <= x < pow2(acc),
    ensures
        exists|t: int| 0 <= t < pow2(acc) && cyc(pow2(acc), t) == x,
{
    let ts = pow2(acc);
    let dom = set_int_range(0, ts as int);
    let f = |t: int| cyc(ts, t);
    lemma_int_range(0, ts as int);
    assert(injective_on(f, dom)) by {
        assert forall|a: int, b: int| dom.contains(a) && dom.contains(b) && #[trigger] f(a) == #[trigger] f(b)
            implies a == b by {
            if a < b {
                lemma_cyc_injective(acc, a, b);
            } else if b < a {
                lemma_cyc_injective(acc, b, a);
            }
        }
    }
    let img = dom.map(f);
    lemma_map_size(dom, img, f);
    assert(img.subset_of(dom)) by {
        assert forall|y: int| img.contains(y) implies dom.contains(y) by {
            let t = choose|t: int| dom.contains(t) && f(t) == y;
            vstd::arithmetic::div_mod::lemma_mod_bound(t * spread_step(ts), ts as int);
        }
    }
    lemma_subset_equality(img, dom);
    assert(img.contains(x));
    let t = choose|t: int| dom.contains(t) && f(t) == x;
    assert(0 <= t < ts && cyc(ts, t) == x);
}

/// A full round of the spread lands below `neg` exactly `neg` times.
pub proof fn lemma_low_rank_total(acc: nat, neg: int)
    requires
        table_log_ok(acc),
        0 <= neg <= pow2(acc),
    ensures
        low_rank(pow2(acc), neg, pow2(acc) as int) == neg,
{
    let ts = pow2(acc);
    let lows = Set::new(|t: int| 0 <= t < ts && cyc(ts, t) < neg);
    lemma_low_rank_set(ts, neg, ts as int);
    let f = |t: int| cyc(ts, t);
    let target = set_int_range(0, neg);
    lemma_int_range(0, neg);
    assert(lows.map(f) =~= target) by {
        assert forall|y: int| target.contains(y) implies lows.map(f).contains(y) by {
            lemma_cyc_surjective(acc, y);
            let t = choose|t: int| 0 <= t < ts && cyc(ts, t) == y;
            assert(lows.contains(t));
        }
    }
    assert(injective_on(f, lows)) by {
        assert forall|a: int, b: int| lows.contains(a) && lows.contains(b) && #[trigger] f(a) == #[trigger] f(b)
            implies a == b by {
            if a < b {
                lemma_cyc_injective(acc, a, b);
            } else if b < a {
                lemma_cyc_injective(acc, b, a);
            }
        }
    }
    lemma_map_size(lows, target, f);
}

proof fn lemma_low_rank_set(ts: nat, neg: int, n: int)
    requires
        n >= 0,
    ensures
        Set::new(|t: int| 0 <= t < n && cyc(ts, t) < neg).finite(),
        Set::new(|t: int| 0 <= t < n && cyc(ts, t) < neg).len() == low_rank(ts, neg, n),
    decreases n,
{
    let cur = Set::new(|t: int| 0 <= t < n && cyc(ts, t) < neg);
    if n == 0 {
        assert(cur =~= Set::empty());
    } else {
        lemma_low_rank_set(ts, neg, n - 1);
        let prev = Set::new(|t: int| 0 <= t < n - 1 && cyc(ts, t) < neg);
        if cyc(ts, n - 1) < neg {
            assert(cur =~= prev.insert(n - 1));
        } else {
            assert(cur =~= prev);
        }
    }
}

/// Ranks only grow; equal ranks mean no slot below `neg` in between.
proof fn lemma_low_rank_mono(ts: nat, neg: int, a: int, b: int)
    requires
        0 <= a <= b,
    ensures
        low_rank(ts, neg, a) <= low_rank(ts, neg, b),
        low_rank(ts, neg, a) == low_rank(ts, neg, b) ==> forall|t: int|
            a <= t < b ==> #[trigger] cyc(ts, t) >= neg,
    decreases b - a,
{
    if a < b {
        lemma_low_rank_mono(ts, neg, a, b - 1);
        assert forall|t: int| a <= t < b && low_rank(ts, neg, a) == low_rank(ts, neg, b) implies
            #[trigger] cyc(ts, t) >= neg by {
            if t < b - 1 {
            }
        }
    }
}

proof fn lemma_count_sym_set(syms: Seq<u8>, s: u8, n: int)
    requires
        0 <= n <= syms.len(),
    ensures
        Set::new(|x: int| 0 <= x < n && syms[x] == s).finite(),
        Set::new(|x: int| 0 <= x < n && syms[x] == s).len() == count_sym(syms, s, n),
    decreases n,
{
    let cur = Set::new(|x: int| 0 <= x < n && syms[x] == s);
    if n == 0 {
        assert(cur =~= Set::empty());
    } else {
        lemma_count_sym_set(syms, s, n - 1);
        let prev = Set::new(|x: int| 0 <= x < n - 1 && syms[x] == s);
        if syms[n - 1] == s {
            assert(cur =~= prev.insert(n - 1));
        } else {
            assert(cur =~= prev);
        }
    }
}

proof fn lemma_count_sym_mono(syms: Seq<u8>, s: u8, a: int, b: int)
    requires
        0 <= a <= b,
    ensures
        count_sym(syms, s, a) <= count_sym(syms, s, b),
    decreases b - a,
{
    if a < b {
        lemma_count_sym_mono(syms, s, a, b - 1);
    }
}

proof fn lemma_pos_sum_mono(probs: Seq<i32>, a: int, b: int)
    requires
        0 <= a <= b,
    ensures
        pos_sum(probs, a) <= pos_sum(probs, b),
    decreases b - a,
{
    if a < b {
        lemma_pos_sum_mono(probs, a, b - 1);
    }
}

/// A slot rank belongs to one symbol only.
proof fn lemma_rank_owner_unique(probs: Seq<i32>, j: int, s1: int, s2: int)
    requires
        0 <= s1 < probs.len(),
        0 <= s2 < probs.len(),
        pos_sum(probs, s1) <= j < pos_sum(probs, s1 + 1),
        pos_sum(probs, s2) <= j < pos_sum(probs, s2 + 1),
    ensures
        s1 == s2,
{
    if s1 < s2 {
        lemma_pos_sum_mono(probs, s1 + 1, s2);
    } else if s2 < s1 {
        lemma_pos_sum_mono(probs, s2 + 1, s1);
    }
}

proof fn lemma_neg_count_mono(probs: Seq<i32>, a: int, b: int)
    requires
        0 <= a <= b,
    ensures
        neg_count(probs, a) <= neg_count(probs, b),
        neg_count(probs, a) >= 0,
    decreases b - a,
{
    if a < b {
        lemma_neg_count_mono(probs, a, b - 1);
    } else {
        lemma_neg_count_nonneg(probs, a);
    }
}

proof fn lemma_neg_count_nonneg(probs: Seq<i32>, a: int)
    ensures
        neg_count(probs, a) >= 0,
    decreases a,
{
    if a > 0 {
        lemma_neg_count_nonneg(probs, a - 1);
    }
}

proof fn lemma_pos_sum_nonneg(probs: Seq<i32>, a: int)
    ensures
        pos_sum(probs, a) >= 0,
    decreases a,
{
    if a > 0 {
        lemma_pos_sum_nonneg(probs, a - 1);
    }
}

/// Slots from `neg` up hold the symbols of probability -1, the last such
/// symbol lowest; their states read `acc` fresh bits.
pub open spec fn negative_slots_placed(decode: Seq<Entry>, probs: Seq<i32>, acc: nat, upto: int) -> bool {
    forall|s: int|
        0 <= s < upto && probs[s] == -1 ==> {
            let e = #[trigger] decode[pow2(acc) - 1 - neg_count(probs, s)];
            e.symbol == s && e.base_line == 0 && e.num_bits == acc
        }
}

/// The symbols of the slots below `neg` follow the spread: the `t`-th step
/// that lands below `neg` is the `j`-th such step, and its slot goes to the
/// symbol that owns rank `j`.
pub open spec fn spread_placed(decode: Seq<Entry>, probs: Seq<i32>, acc: nat, neg: int) -> bool {
    forall|t: int|
        0 <= t < pow2(acc) && cyc(pow2(acc), t) < neg ==> #[trigger] decode[cyc(pow2(acc), t)].symbol
            == spread_symbol(probs, low_rank(pow2(acc), neg, t) as int)
}

/// The symbols of the entries, in slot order.
pub open spec fn entry_symbols(decode: Seq<Entry>) -> Seq<u8> {
    decode.map_values(|e: Entry| e.symbol)
}

/// Every slot below `neg` holds a symbol of positive probability, and each
/// such symbol holds exactly as many slots as its probability.
pub open spec fn spread_counts(decode: Seq<Entry>, probs: Seq<i32>, neg: int) -> bool {
    &&& forall|x: int|
        0 <= x < neg ==> (#[trigger] decode[x]).symbol < probs.len() && probs[decode[x].symbol as int]
            > 0
    &&& forall|s: int|
        0 <= s < probs.len() && probs[s] > 0 ==> count_sym(entry_symbols(decode), s as u8, neg)
            == probs[s]
}

/// The state of each slot below `neg` is given by its rank among the slots
/// of its symbol.
pub open spec fn states_assigned(decode: Seq<Entry>, probs: Seq<i32>, acc: nat, upto: int) -> bool {
    forall|x: int|
        0 <= x < upto ==> {
            let e = #[trigger] decode[x];
            (e.base_line as nat, e.num_bits as nat) == calc_spec(
                acc,
                probs[e.symbol as int] as nat,
                count_sym(entry_symbols(decode), e.symbol, x),
            )
        }
}

/// Each state moves within the table and reads at most `acc` bits.
pub open spec fn table_sound(decode: Seq<Entry>, acc: nat) -> bool {
    forall|x: int|
        0 <= x < decode.len() ==> {
            let e = #[trigger] decode[x];
            e.num_bits <= acc && e.base_line + pow2(e.num_bits as nat) <= decode.len()
        }
}

/// The decoding table that `probs` give at accuracy log `acc`.
pub open spec fn table_matches(decode: Seq<Entry>, probs: Seq<i32>, acc: nat) -> bool {
    let neg = pow2(acc) - neg_count(probs, probs.len() as int);
    &&& decode.len() == pow2(acc)
    &&& negative_slots_placed(decode, probs, acc, probs.len() as int)
    &&& spread_placed(decode, probs, acc, neg)
    &&& spread_counts(decode, probs, neg)
    &&& states_assigned(decode, probs, acc, neg)
}

fn place_negative_symbols(decode: &mut Vec<Entry>, probs: &Vec<i32>, acc_log: u8) -> (neg: usize)
    requires
        1 <= acc_log <= 20,
        distribution_sums(probs@, acc_log as nat),
        old(decode)@.len() == pow2(acc_log as nat),
        forall|x: int| 0 <= x < pow2(acc_log as nat) ==> #[trigger] old(decode)@[x] == (Entry { base_line: 0, num_bits: 0, symbol: 0 }),
    ensures
        final(decode)@.len() == pow2(acc_log as nat),
        neg == pow2(acc_log as nat) - neg_count(probs@, probs@.len() as int),
        neg == pos_sum(probs@, probs@.len() as int),
        negative_slots_placed(final(decode)@, probs@, acc_log as nat, probs@.len() as int),
        forall|x: int| 0 <= x < neg ==> #[trigger] final(decode)@[x] == (Entry { base_line: 0, num_bits: 0, symbol: 0 }),
        forall|x: int| neg <= x < pow2(acc_log as nat) ==> (#[trigger] final(decode)@[x]).base_line == 0
            && final(decode)@[x].num_bits == acc_log,
{
    let ghost acc = acc_log as nat;
    let ghost ts = pow2(acc);
    proof {
        lemma_shl_pow2(acc);
        lemma_pos_sum_nonneg(probs@, probs@.len() as int);
        lemma_neg_count_nonneg(probs@, probs@.len() as int);
    }
    let table_size: usize = 1usize << (acc_log as usize);
    let mut negative_idx = table_size;
    let nsym = probs.len();
    let mut symbol: usize = 0;
    while symbol < nsym
        invariant
            nsym == probs@.len(),
            acc == acc_log as nat,
            1 <= acc <= 20,
            distribution_sums(probs@, acc),
            table_size == ts,
            ts == pow2(acc),
            decode@.len() == ts,
            symbol <= nsym,
            negative_idx == ts - neg_count(probs@, symbol as int),
            neg_count(probs@, symbol as int) <= neg_count(probs@, nsym as int),
            pos_sum(probs@, nsym as int) >= 0,
            negative_slots_placed(decode@, probs@, acc, symbol as int),
            forall|x: int| 0 <= x < negative_idx ==> #[trigger] decode@[x] == (Entry { base_line: 0, num_bits: 0, symbol: 0 }),
            forall|x: int| negative_idx <= x < ts ==> (#[trigger] decode@[x]).base_line == 0 && decode@[x].num_bits == acc,
        decreases nsym - symbol,
    {
        proof {
            lemma_neg_count_mono(probs@, symbol + 1, nsym as int);
            lemma_neg_count_nonneg(probs@, symbol as int);
        }
        assert(neg_count(probs@, symbol + 1) == neg_count(probs@, symbol as int) + if probs@[symbol as int] == -1 { 1int } else { 0 });
        let ghost d0 = decode@;
        if probs[symbol] == -1 {
            assert(neg_count(probs@, symbol + 1) <= neg_count(probs@, nsym as int));
            assert(pos_sum(probs@, nsym as int) + neg_count(probs@, nsym as int) == ts);
            assert(negative_idx >= 1);
            negative_idx = negative_idx - 1;
            assert(negative_idx < decode@.len());
            decode.set(negative_idx, Entry { symbol: symbol as u8, base_line: 0, num_bits: acc_log });
            proof {
                assert forall|s: int| 0 <= s < symbol + 1 && probs@[s] == -1 implies
                    (#[trigger] decode@[pow2(acc) - 1 - neg_count(probs@, s)]).symbol == s
                    && decode@[pow2(acc) - 1 - neg_count(probs@, s)].base_line == 0
                    && decode@[pow2(acc) - 1 - neg_count(probs@, s)].num_bits == acc by {
                    lemma_neg_count_nonneg(probs@, s);
                    if s < symbol {
                        lemma_neg_count_mono(probs@, s + 1, symbol as int);
                        assert(d0[pow2(acc) - 1 - neg_count(probs@, s)] == decode@[pow2(acc) - 1 - neg_count(probs@, s)]);
                    } else {
                        assert(s == symbol);
                        assert(pow2(acc) - 1 - neg_count(probs@, s) == negative_idx);
                        assert(decode@[negative_idx as int].symbol == symbol as u8);
                        assert(symbol < 256);
                        assert(decode@[pow2(acc) - 1 - neg_count(probs@, s)].symbol == s);
                    }
                }
            }
        }
        symbol = symbol + 1;
    }
    negative_idx
}

/// What the spread has done after `i` steps and `w` writes: the `j`-th write
/// went to the slot of step `rank_t[j]`, the `j`-th step that landed below
/// `neg`, and gave it symbol `rank_sym[j]`; `owner` maps each written slot
/// back to its write; every step so far that landed below `neg` was written.
spec fn spread_inv(
    decode: Seq<Entry>,
    start: Seq<Entry>,
    probs: Seq<i32>,
    acc: nat,
    neg: int,
    i: int,
    w: int,
    owner: Seq<int>,
    rank_pos: Seq<int>,
    rank_t: Seq<int>,
    rank_sym: Seq<int>,
) -> bool {
    let ts = pow2(acc);
    &&& decode.len() == ts
    &&& start.len() == ts
    &&& 0 <= i <= ts
    &&& w == low_rank(ts, neg, i)
    &&& owner.len() == ts
    &&& rank_pos.len() == w
    &&& rank_t.len() == w
    &&& rank_sym.len() == w
    &&& forall|j: int|
        0 <= j < w ==> {
            &&& 0 <= #[trigger] rank_t[j] < i
            &&& rank_pos[j] == cyc(ts, rank_t[j])
            &&& 0 <= rank_pos[j] < neg
            &&& low_rank(ts, neg, rank_t[j]) == j
            &&& owner[rank_pos[j]] == j
            &&& decode[rank_pos[j]].symbol as int == rank_sym[j]
            &&& 0 <= rank_sym[j] < probs.len()
            &&& pos_sum(probs, rank_sym[j]) <= j < pos_sum(probs, rank_sym[j] + 1)
        }
    &&& forall|x: int| 0 <= x < ts && #[trigger] owner[x] >= 0 ==> owner[x] < w && rank_pos[owner[x]] == x
    &&& forall|t: int| 0 <= t < i && #[trigger] cyc(ts, t) < neg ==> owner[cyc(ts, t)] >= 0
    &&& forall|x: int| neg <= x < ts ==> #[trigger] decode[x] == start[x]
}

proof fn lemma_cyc_next(acc: nat, i: int)
    requires
        table_log_ok(acc),
        i >= 0,
    ensures
        cyc(pow2(acc), i + 1) == (cyc(pow2(acc), i) + spread_step(pow2(acc))) % (pow2(acc) as int),
        0 <= cyc(pow2(acc), i) < pow2(acc),
        cyc(pow2(acc), pow2(acc) as int) == 0,
{
    let ts = pow2(acc) as int;
    let st = spread_step(pow2(acc)) as int;
    lemma_step_odd(acc);
    lemma_pow2_pos(acc);
    assert((i + 1) * st == i * st + st) by (nonlinear_arith);
    vstd::arithmetic::div_mod::lemma_add_mod_noop(i * st, st, ts);
    vstd::arithmetic::div_mod::lemma_add_mod_noop((i * st) % ts, st, ts);
    vstd::arithmetic::div_mod::lemma_mod_twice(i * st, ts);
    vstd::arithmetic::div_mod::lemma_mod_bound(i * st, ts);
    vstd::arithmetic::div_mod::lemma_mod_multiples_basic(st, ts);
}

/// Once every positive probability is spread, the slots below `neg` are all
/// written, follow the spread, and each symbol holds its probability's
/// worth of them.
proof fn lemma_spread_done(
    decode: Seq<Entry>,
    start: Seq<Entry>,
    probs: Seq<i32>,
    acc: nat,
    neg: int,
    i: int,
    owner: Seq<int>,
    rank_pos: Seq<int>,
    rank_t: Seq<int>,
    rank_sym: Seq<int>,
)
    requires
        valid_distribution(probs, acc),
        neg == pos_sum(probs, probs.len() as int),
        neg == pow2(acc) - neg_count(probs, probs.len() as int),
        spread_inv(decode, start, probs, acc, neg, i, neg, owner, rank_pos, rank_t, rank_sym),
    ensures
        spread_placed(decode, probs, acc, neg),
        spread_counts(decode, probs, neg),
{
    let ts = pow2(acc);
    lemma_neg_count_nonneg(probs, probs.len() as int);
    lemma_low_rank_total(acc, neg);
    // every slot below neg has been written
    assert forall|x: int| 0 <= x < neg implies #[trigger] owner[x] >= 0 by {
        lemma_cyc_surjective(acc, x);
        let t = choose|t: int| 0 <= t < ts && cyc(ts, t) == x;
        if t >= i {
            lemma_low_rank_mono(ts, neg, i, ts as int);
            assert(cyc(ts, t) >= neg);
        }
    }
    // the slot of step t is the write of rank low_rank(t)
    assert forall|t: int| 0 <= t < ts && cyc(ts, t) < neg implies #[trigger] decode[cyc(ts, t)].symbol
        == spread_symbol(probs, low_rank(ts, neg, t) as int) by {
        let x = cyc(ts, t);
        let j = owner[x];
        assert(owner[x] >= 0);
        assert(0 <= rank_t[j] < i);
        if rank_t[j] != t {
            if rank_t[j] < t {
                lemma_cyc_injective(acc, rank_t[j], t);
            } else {
                lemma_cyc_injective(acc, t, rank_t[j]);
            }
        }
        let s = spread_symbol(probs, j);
        assert(0 <= rank_sym[j] < probs.len() && pos_sum(probs, rank_sym[j]) <= j < pos_sum(probs, rank_sym[j] + 1));
        lemma_rank_owner_unique(probs, j, s, rank_sym[j]);
    }
    let syms = entry_symbols(decode);
    assert forall|x: int| 0 <= x < neg implies (#[trigger] decode[x]).symbol < probs.len() && probs[decode[x].symbol as int] > 0 by {
        let j = owner[x];
        assert(owner[x] >= 0);
        assert(0 <= rank_t[j] < i);
        let s = rank_sym[j];
        assert(pos_sum(probs, s + 1) == pos_sum(probs, s) + if probs[s] > 0 { probs[s] as int } else { 0 });
    }
    assert forall|s: int| 0 <= s < probs.len() && probs[s] > 0 implies count_sym(syms, s as u8, neg) == probs[s] by {
        lemma_count_spread(decode, start, probs, acc, neg, i, owner, rank_pos, rank_t, rank_sym, s);
    }
}

proof fn lemma_count_spread(
    decode: Seq<Entry>,
    start: Seq<Entry>,
    probs: Seq<i32>,
    acc: nat,
    neg: int,
    i: int,
    owner: Seq<int>,
    rank_pos: Seq<int>,
    rank_t: Seq<int>,
    rank_sym: Seq<int>,
    s: int,
)
    requires
        valid_distribution(probs, acc),
        neg == pos_sum(probs, probs.len() as int),
        neg == pow2(acc) - neg_count(probs, probs.len() as int),
        spread_inv(decode, start, probs, acc, neg, i, neg, owner, rank_pos, rank_t, rank_sym),
        forall|x: int| 0 <= x < neg ==> #[trigger] owner[x] >= 0,
        0 <= s < probs.len(),
        probs[s] > 0,
    ensures
        count_sym(entry_symbols(decode), s as u8, neg) == probs[s],
{
    let syms = entry_symbols(decode);
    lemma_neg_count_nonneg(probs, probs.len() as int);
    lemma_count_sym_set(syms, s as u8, neg);
    let a = Set::new(|x: int| 0 <= x < neg && syms[x] == s as u8);
    let lo = pos_sum(probs, s);
    let hi = pos_sum(probs, s + 1);
    assert(hi == lo + probs[s]);
    lemma_pos_sum_mono(probs, s + 1, probs.len() as int);
    lemma_pos_sum_nonneg(probs, s);
    let b = set_int_range(lo, hi);
    lemma_int_range(lo, hi);
    let f = |x: int| owner[x];
    assert(a.map(f) =~= b) by {
        assert forall|j: int| a.map(f).contains(j) implies b.contains(j) by {
            let x = choose|x: int| a.contains(x) && f(x) == j;
            assert(owner[x] >= 0);
            assert(0 <= rank_t[j] < i);
            assert(decode[rank_pos[j]].symbol as int == rank_sym[j]);
            assert(syms[x] == decode[x].symbol);
            lemma_rank_owner_unique(probs, j, s, rank_sym[j]);
        }
        assert forall|j: int| b.contains(j) implies a.map(f).contains(j) by {
            assert(0 <= rank_t[j] < i);
            let x = rank_pos[j];
            lemma_rank_owner_unique(probs, j, s, rank_sym[j]);
            assert(syms[x] == decode[x].symbol);
            assert(a.contains(x) && f(x) == j);
        }
    }
    assert(injective_on(f, a)) by {
        assert forall|x1: int, x2: int| a.contains(x1) && a.contains(x2) && #[trigger] f(x1) == #[trigger] f(x2)
            implies x1 == x2 by {
            assert(owner[x1] >= 0 && owner[x2] >= 0);
        }
    }
    lemma_map_size(a, b, f);
}

/// Writing symbol `sym` into the slot of step `i`, the next step to land below
/// `neg`, keeps the record of the spread.
proof fn lemma_spread_write(
    decode: Seq<Entry>,
    start: Seq<Entry>,
    probs: Seq<i32>,
    acc: nat,
    neg: int,
    i: int,
    w: int,
    owner: Seq<int>,
    rank_pos: Seq<int>,
    rank_t: Seq<int>,
    rank_sym: Seq<int>,
    sym: int,
    new_decode: Seq<Entry>,
)
    requires
        table_log_ok(acc),
        spread_inv(decode, start, probs, acc, neg, i, w, owner, rank_pos, rank_t, rank_sym),
        i < pow2(acc),
        cyc(pow2(acc), i) < neg,
        0 <= sym < probs.len(),
        pos_sum(probs, sym) <= w < pos_sum(probs, sym + 1),
        new_decode == decode.update(cyc(pow2(acc), i), Entry { symbol: sym as u8, ..decode[cyc(pow2(acc), i)] }),
        sym < 256,
    ensures
        owner[cyc(pow2(acc), i)] < 0,
        spread_inv(
            new_decode,
            start,
            probs,
            acc,
            neg,
            i + 1,
            w + 1,
            owner.update(cyc(pow2(acc), i), w),
            rank_pos.push(cyc(pow2(acc), i)),
            rank_t.push(i),
            rank_sym.push(sym),
        ),
{
    let ts = pow2(acc);
    let pos = cyc(ts, i);
    lemma_cyc_next(acc, i);
    if owner[pos] >= 0 {
        let j = owner[pos];
        assert(0 <= rank_t[j] < i);
        lemma_cyc_injective(acc, rank_t[j], i);
    }
    let owner2 = owner.update(pos, w);
    let rank_pos2 = rank_pos.push(pos);
    let rank_t2 = rank_t.push(i);
    let rank_sym2 = rank_sym.push(sym);
    assert(low_rank(ts, neg, i + 1) == w + 1);
    assert forall|j: int| 0 <= j < w + 1 implies {
        &&& 0 <= #[trigger] rank_t2[j] < i + 1
        &&& rank_pos2[j] == cyc(ts, rank_t2[j])
        &&& 0 <= rank_pos2[j] < neg
        &&& low_rank(ts, neg, rank_t2[j]) == j
        &&& owner2[rank_pos2[j]] == j
        &&& new_decode[rank_pos2[j]].symbol as int == rank_sym2[j]
        &&& 0 <= rank_sym2[j] < probs.len()
        &&& pos_sum(probs, rank_sym2[j]) <= j < pos_sum(probs, rank_sym2[j] + 1)
    } by {
        if j < w {
            assert(0 <= rank_t[j] < i);
            assert(rank_t2[j] == rank_t[j]);
            assert(owner[rank_pos[j]] == j);
            assert(rank_pos[j] != pos);
        }
    }
    assert forall|x: int| 0 <= x < ts && #[trigger] owner2[x] >= 0 implies owner2[x] < w + 1
        && rank_pos2[owner2[x]] == x by {
        if x != pos {
            assert(owner[x] >= 0);
        }
    }
    assert forall|t: int| 0 <= t < i + 1 && #[trigger] cyc(ts, t) < neg implies owner2[cyc(ts, t)] >= 0 by {
        if t < i {
            assert(owner[cyc(ts, t)] >= 0);
        }
    }
    assert forall|x: int| neg <= x < ts implies #[trigger] new_decode[x] == start[x] by {
        assert(decode[x] == start[x]);
    }
}

fn spread_symbols(decode: &mut Vec<Entry>, probs: &Vec<i32>, negative_idx: usize, acc_log: u8)
    requires
        valid_distribution(probs@, acc_log as nat),
        old(decode)@.len() == pow2(acc_log as nat),
        negative_idx == pos_sum(probs@, probs@.len() as int),
        negative_idx == pow2(acc_log as nat) - neg_count(probs@, probs@.len() as int),
    ensures
        final(decode)@.len() == pow2(acc_log as nat),
        forall|x: int| negative_idx <= x < pow2(acc_log as nat) ==> #[trigger] final(decode)@[x] == old(decode)@[x],
        spread_placed(final(decode)@, probs@, acc_log as nat, negative_idx as int),
        spread_counts(final(decode)@, probs@, negative_idx as int),
{
    let ghost acc = acc_log as nat;
    let ghost ts = pow2(acc);
    let ghost neg = negative_idx as int;
    let ghost start = decode@;
    proof {
        lemma_shl_pow2(acc);
        lemma_pow2_increases_le(acc, 20);
        assert(pow2(20) == 0x10_0000) by {
            lemma2_to64();
        }
        lemma_neg_count_nonneg(probs@, probs@.len() as int);
        lemma_low_rank_total(acc, neg);
        lemma_cyc_next(acc, 0);
        lemma_pow2_pos(acc);
        vstd::arithmetic::div_mod::lemma_small_mod(0, ts);
        assert(cyc(ts, 0) == 0);
    }
    let table_size: usize = 1usize << (acc_log as usize);
    let nsym = probs.len();
    let mut position: usize = 0;
    let ghost mut i: int = 0;
    let ghost mut w: int = 0;
    let ghost mut owner: Seq<int> = Seq::new(ts, |x: int| -1int);
    let ghost mut rank_pos: Seq<int> = Seq::empty();
    let ghost mut rank_t: Seq<int> = Seq::empty();
    let ghost mut rank_sym: Seq<int> = Seq::empty();
    let mut idx: usize = 0;
    while idx < nsym
        invariant
            nsym == probs@.len(),
            valid_distribution(probs@, acc),
            acc == acc_log as nat,
            ts == pow2(acc),
            table_size == ts,
            ts <= 0x10_0000,
            neg == negative_idx,
            neg == pos_sum(probs@, nsym as int),
            neg == ts - neg_count(probs@, nsym as int),
            low_rank(ts, neg, ts as int) == neg,
            idx <= nsym,
            w == pos_sum(probs@, idx as int),
            position == cyc(ts, i),
            w < neg ==> i < ts && position < neg,
            spread_inv(decode@, start, probs@, acc, neg, i, w, owner, rank_pos, rank_t, rank_sym),
        decreases nsym - idx,
    {
        proof {
            lemma_pos_sum_mono(probs@, idx + 1, nsym as int);
        }
        if probs[idx] <= 0 {
            idx = idx + 1;
            continue;
        }
        let prob = probs[idx];
        let mut c: i32 = 0;
        while c < prob
            invariant
                nsym == probs@.len(),
                valid_distribution(probs@, acc),
                acc == acc_log as nat,
                ts == pow2(acc),
                table_size == ts,
                ts <= 0x10_0000,
                neg == negative_idx,
                neg == pos_sum(probs@, nsym as int),
                neg == ts - neg_count(probs@, nsym as int),
                low_rank(ts, neg, ts as int) == neg,
                idx < nsym,
                prob == probs@[idx as int],
                prob > 0,
                pos_sum(probs@, idx + 1) <= neg,
                0 <= c <= prob,
                w == pos_sum(probs@, idx as int) + c,
                position == cyc(ts, i),
                w < neg ==> i < ts && position < neg,
                spread_inv(decode@, start, probs@, acc, neg, i, w, owner, rank_pos, rank_t, rank_sym),
            decreases prob - c,
        {
            assert(w < neg);
            proof {
                // the slot is fresh
                if owner[position as int] >= 0 {
                    let j = owner[position as int];
                    assert(0 <= rank_t[j] < i);
                    lemma_cyc_injective(acc, rank_t[j], i);
                }
            }
            let ghost d0 = decode@;
            let mut e = decode[position];
            e.symbol = idx as u8;
            decode.set(position, e);
            proof {
                lemma_pos_sum_mono(probs@, idx + 1, nsym as int);
                assert(decode@ == d0.update(cyc(ts, i), Entry { symbol: idx as u8, ..d0[cyc(ts, i)] }));
                lemma_spread_write(d0, start, probs@, acc, neg, i, w, owner, rank_pos, rank_t, rank_sym, idx as int, decode@);
                owner = owner.update(position as int, w);
                rank_pos = rank_pos.push(position as int);
                rank_t = rank_t.push(i);
                rank_sym = rank_sym.push(idx as int);
                lemma_cyc_next(acc, i);
                i = i + 1;
                w = w + 1;
            }
            position = next_position(position, table_size, Ghost(acc));
            while position >= negative_idx
                invariant
                    acc == acc_log as nat,
                    table_log_ok(acc),
                    ts == pow2(acc),
                    table_size == ts,
                    neg == negative_idx,
                    neg >= w,
                    w >= 1,
                    0 <= i <= ts,
                    w == low_rank(ts, neg, i),
                    position == cyc(ts, i),
                    position < ts,
                    spread_inv(decode@, start, probs@, acc, neg, i, w, owner, rank_pos, rank_t, rank_sym),
                decreases ts - i,
            {
                proof {
                    lemma_cyc_next(acc, i);
                    if i == ts {
                        assert(position == 0);
                    }
                }
                position = next_position(position, table_size, Ghost(acc));
                proof {
                    assert forall|t: int| 0 <= t < i + 1 && #[trigger] cyc(ts, t) < neg implies owner[cyc(ts, t)] >= 0 by {
                        if t < i {
                            assert(owner[cyc(ts, t)] >= 0);
                        }
                    }
                    assert forall|j: int| 0 <= j < w implies #[trigger] rank_t[j] < i + 1 by {
                        assert(0 <= rank_t[j] < i);
                    }
                    i = i + 1;
                }
            }
            proof {
                if w < neg && i == ts {
                    assert(false);
                }
            }
            c = c + 1;
        }
        idx = idx + 1;
    }
    proof {
        lemma_spread_done(decode@, start, probs@, acc, neg, i, owner, rank_pos, rank_t, rank_sym);
    }
}

/// The spread at accuracy logs 1 and 3, where every step lands back on slot 0.
fn spread_to_slot_zero(decode: &mut Vec<Entry>, probs: &Vec<i32>, negative_idx: usize, acc_log: u8)
    requires
        slot_zero_distribution(probs@, acc_log as nat),
        old(decode)@.len() == pow2(acc_log as nat),
        negative_idx == pos_sum(probs@, probs@.len() as int),
    ensures
        final(decode)@ == if negative_idx > 0 {
            old(decode)@.update(
                0,
                Entry { symbol: last_positive(probs@, probs@.len() as int) as u8, ..old(decode)@[0] },
            )
        } else {
            old(decode)@
        },
{
    let ghost acc = acc_log as nat;
    let ghost start = decode@;
    proof {
        lemma_slot_zero_logs(acc);
        lemma_shl_pow2(acc);
        lemma_pow2_pos(acc);
    }
    let table_size: usize = 1usize << (acc_log as usize);
    let nsym = probs.len();
    let mut position: usize = 0;
    let mut idx: usize = 0;
    while idx < nsym
        invariant
            nsym == probs@.len(),
            slot_zero_distribution(probs@, acc),
            acc == acc_log as nat,
            table_size == pow2(acc),
            table_size <= 8,
            spread_step(pow2(acc)) % pow2(acc) == 0,
            negative_idx == pos_sum(probs@, nsym as int),
            start.len() == table_size,
            decode@.len() == table_size,
            table_size >= 1,
            idx <= nsym,
            position == 0,
            decode@ == if pos_sum(probs@, idx as int) > 0 {
                start.update(0, Entry { symbol: last_positive(probs@, idx as int) as u8, ..start[0] })
            } else {
                start
            },
        decreases nsym - idx,
    {
        proof {
            lemma_pos_sum_mono(probs@, idx + 1, nsym as int);
            lemma_pos_sum_nonneg(probs@, idx as int);
        }
        if probs[idx] <= 0 {
            idx = idx + 1;
            continue;
        }
        let prob = probs[idx];
        let mut c: i32 = 0;
        while c < prob
            invariant
                nsym == probs@.len(),
                acc == acc_log as nat,
                1 <= acc <= 20,
                table_size == pow2(acc),
                spread_step(pow2(acc)) % pow2(acc) == 0,
                negative_idx >= 1,
                start.len() == table_size,
                decode@.len() == table_size,
                table_size >= 1,
                nsym <= 256,
                idx < nsym,
                prob == probs@[idx as int],
                prob > 0,
                0 <= c <= prob,
                position == 0,
                decode@ == if c > 0 || pos_sum(probs@, idx as int) > 0 {
                    start.update(
                        0,
                        Entry {
                            symbol: (if c > 0 { idx as int } else { last_positive(probs@, idx as int) }) as u8,
                            ..start[0]
                        },
                    )
                } else {
                    start
                },
            decreases prob - c,
        {
            let mut e = decode[position];
            e.symbol = idx as u8;
            decode.set(position, e);
            position = next_position(position, table_size, Ghost(acc));
            while position >= negative_idx
                invariant
                    position == 0,
                    negative_idx >= 1,
                decreases 0nat,
            {
                position = next_position(position, table_size, Ghost(acc));
            }
            c = c + 1;
        }
        idx = idx + 1;
    }
}

/// The count of a symbol among the first `n` slots is at most `n`.
proof fn lemma_count_sym_le(syms: Seq<u8>, s: u8, n: int)
    requires
        0 <= n,
    ensures
        count_sym(syms, s, n) <= n,
    decreases n,
{
    if n > 0 {
        lemma_count_sym_le(syms, s, n - 1);
    }
}

/// Every state is read with at most `acc` bits, whatever its number.
proof fn lemma_calc_bits_le(acc: nat, p: nat, t: nat)
    requires
        acc <= 20,
        p <= pow2(acc),
    ensures
        calc_spec(acc, p, t).1 <= acc,
{
    if p > 0 {
        if t < p {
            lemma_calc_bounds(acc, p, t);
        } else {
            lemma_calc_shape(acc, p);
            let slices = if pow2((hbs(p) - 1) as nat) == p { p } else { pow2(hbs(p)) };
            let w = pow2(acc) / slices;
            assert(w <= pow2(acc)) by (nonlinear_arith)
                requires
                    slices * w == pow2(acc),
                    slices >= 1,
            ;
            let nb = (hbs(w) - 1) as nat;
            if nb > acc {
                lemma_pow2_strictly_increases(acc, nb);
            }
        }
    }
}

fn assign_states(
    decode: &mut Vec<Entry>,
    counter: &mut Vec<u32>,
    probs: &Vec<i32>,
    negative_idx: usize,
    acc_log: u8,
) -> (r: Option<()>)
    requires
        valid_distribution(probs@, acc_log as nat) && spread_counts(old(decode)@, probs@, negative_idx as int)
            || slot_zero_distribution(probs@, acc_log as nat) && slot_zero_spread(old(decode)@, probs@, negative_idx as int),
        old(decode)@.len() == pow2(acc_log as nat),
        negative_idx == pos_sum(probs@, probs@.len() as int),
        negative_idx == pow2(acc_log as nat) - neg_count(probs@, probs@.len() as int),
    ensures
        r is Some,
        final(decode)@.len() == pow2(acc_log as nat),
        entry_symbols(final(decode)@) == entry_symbols(old(decode)@),
        forall|x: int| negative_idx <= x < pow2(acc_log as nat) ==> #[trigger] final(decode)@[x] == old(decode)@[x],
        states_assigned(final(decode)@, probs@, acc_log as nat, negative_idx as int),
        valid_distribution(probs@, acc_log as nat) ==> forall|x: int| 0 <= x < negative_idx ==> {
            let e = #[trigger] final(decode)@[x];
            e.num_bits <= acc_log && e.base_line + pow2(e.num_bits as nat) <= pow2(acc_log as nat)
        },
{
    let ghost acc = acc_log as nat;
    let ghost ts = pow2(acc);
    let ghost start = decode@;
    let ghost syms = entry_symbols(decode@);
    proof {
        lemma_neg_count_nonneg(probs@, probs@.len() as int);
        lemma_shl_pow2(acc);
        lemma_pow2_increases_le(acc, 20);
        assert(pow2(20) == 0x10_0000) by {
            lemma2_to64();
        }
    }
    let table_size: usize = 1usize << (acc_log as usize);
    let nsym = probs.len();
    counter.clear();
    counter.resize(nsym, 0);
    proof {
        assert forall|s: int| 0 <= s < nsym implies #[trigger] counter@[s] == 0 by {
            assert(cloned::<u32>(0u32, counter@[s]));
        }
    }
    let mut k: usize = 0;
    while k < negative_idx
        invariant
            nsym == probs@.len(),
            valid_distribution(probs@, acc) && spread_counts(start, probs@, negative_idx as int)
                || slot_zero_distribution(probs@, acc) && slot_zero_spread(start, probs@, negative_idx as int),
            1 <= acc <= 20,
            distribution_sums(probs@, acc),
            acc == acc_log as nat,
            ts == pow2(acc),
            table_size == ts,
            ts <= 0x10_0000,
            negative_idx <= ts,
            negative_idx == pos_sum(probs@, nsym as int),
            syms == entry_symbols(start),
            decode@.len() == ts,
            k <= negative_idx,
            entry_symbols(decode@) == syms,
            forall|x: int| k <= x < ts ==> #[trigger] decode@[x] == start[x],
            counter@.len() == nsym,
            forall|s: int| 0 <= s < nsym ==> #[trigger] counter@[s] == count_sym(syms, s as u8, k as int),
            states_assigned(decode@, probs@, acc, k as int),
            valid_distribution(probs@, acc) ==> forall|x: int| 0 <= x < k ==> {
                let e = #[trigger] decode@[x];
                e.num_bits <= acc_log && e.base_line + pow2(e.num_bits as nat) <= ts
            },
        decreases negative_idx - k,
    {
        let entry = decode[k];
        let symbol = entry.symbol;
        proof {
            assert(start[k as int] == entry);
            assert(syms[k as int] == symbol);
            if !(valid_distribution(probs@, acc) && spread_counts(start, probs@, negative_idx as int)) {
                assert(nsym > 0) by {
                    if nsym == 0 {
                        assert(pos_sum(probs@, 0) == 0);
                        assert(neg_count(probs@, 0) == 0);
                        lemma_pow2_pos(acc);
                    }
                }
                lemma_last_positive(probs@, nsym as int);
            }
        }
        let prob = probs[symbol as usize];
        let symbol_count = counter[symbol as usize];
        proof {
            let s = symbol as int;
            assert(count_sym(syms, symbol, k + 1) == symbol_count + 1);
            lemma_count_sym_mono(syms, symbol, k + 1, negative_idx as int);
            lemma_pos_sum_mono(probs@, s + 1, nsym as int);
            lemma_pos_sum_nonneg(probs@, s);
            lemma_count_sym_le(syms, symbol, k as int);
            if valid_distribution(probs@, acc) && spread_counts(start, probs@, negative_idx as int) {
                assert(count_sym(syms, s as u8, negative_idx as int) == prob);
                lemma_calc_bounds(acc, prob as nat, symbol_count as nat);
            } else {
                lemma_slot_zero_logs(acc);
                lemma_last_positive(probs@, nsym as int);
                assert(start[k as int].symbol == if k == 0 {
                    last_positive(probs@, nsym as int) as u8
                } else {
                    0u8
                });
            }
            assert(pos_sum(probs@, s + 1) == pos_sum(probs@, s) + if prob > 0 { prob as int } else { 0 });
            lemma_calc_bits_le(acc, prob as nat, symbol_count as nat);
        }
        let (bl, nb) = calc_baseline_and_numbits(table_size as u32, prob as u32, symbol_count, Ghost(acc));
        if nb > acc_log {
            return None;
        }
        let ghost d0 = decode@;
        let ghost c0 = counter@;
        counter.set(symbol as usize, symbol_count + 1);
        decode.set(k, Entry { base_line: bl, num_bits: nb, symbol });
        proof {
            assert(entry_symbols(decode@) =~= syms);
            assert forall|s: int| 0 <= s < nsym implies #[trigger] counter@[s] == count_sym(syms, s as u8, k + 1) by {
                assert(c0[s] == count_sym(syms, s as u8, k as int));
                if s != symbol as int {
                    assert(s as u8 != symbol);
                }
            }
            assert forall|x: int| 0 <= x < k + 1 implies {
                let e = #[trigger] decode@[x];
                (e.base_line as nat, e.num_bits as nat) == calc_spec(
                    acc,
                    probs@[e.symbol as int] as nat,
                    count_sym(entry_symbols(decode@), e.symbol, x),
                )
            } by {
                if x < k {
                    assert(d0[x] == decode@[x]);
                }
            }
        }
        k = k + 1;
    }
    Some(())
}

proof fn lemma_negative_slots_high(probs: Seq<i32>, acc: nat, s: int)
    requires
        0 <= s < probs.len(),
        probs[s] == -1,
    ensures
        pow2(acc) - 1 - neg_count(probs, s) >= pow2(acc) - neg_count(probs, probs.len() as int),
        neg_count(probs, s) >= 0,
{
    lemma_neg_count_mono(probs, s + 1, probs.len() as int);
    lemma_neg_count_nonneg(probs, s);
}

impl FSETable {
    fn build_decoding_table(&mut self) -> (r: Option<()>)
        requires
            valid_distribution(old(self).symbol_probabilities@, old(self).accuracy_log as nat)
                || slot_zero_distribution(old(self).symbol_probabilities@, old(self).accuracy_log as nat),
        ensures
            final(self).max_symbol == old(self).max_symbol,
            final(self).accuracy_log == old(self).accuracy_log,
            final(self).symbol_probabilities == old(self).symbol_probabilities,
            r is Some <==> old(self).symbol_probabilities@.len() <= old(self).max_symbol + 1,
            r is Some && table_log_ok(old(self).accuracy_log as nat) ==> table_matches(
                final(self).decode@,
                final(self).symbol_probabilities@,
                final(self).accuracy_log as nat,
            ),
            r is Some && table_log_ok(old(self).accuracy_log as nat) ==> table_sound(
                final(self).decode@,
                final(self).accuracy_log as nat,
            ),
            r is Some && !table_log_ok(old(self).accuracy_log as nat) ==> slot_zero_table_matches(
                final(self).decode@,
                final(self).symbol_probabilities@,
                final(self).accuracy_log as nat,
            ),
    {
        if self.symbol_probabilities.len() > self.max_symbol as usize + 1 {
            return None;
        }
        let ghost acc = self.accuracy_log as nat;
        let ghost probs = self.symbol_probabilities@;
        proof {
            if acc == 1 || acc == 3 {
                lemma_slot_zero_logs(acc);
            }
            lemma_shl_pow2(acc);
            lemma_pow2_increases_le(acc, 20);
            assert(pow2(20) == 0x10_0000) by {
                lemma2_to64();
            }
        }
        self.decode.clear();
        let table_size: usize = 1usize << self.accuracy_log;
        if self.decode.len() < table_size {
            self.decode.reserve(table_size - self.decode.len());
        }
        self.decode.resize(table_size, Entry { base_line: 0, num_bits: 0, symbol: 0 });
        proof {
            assert forall|x: int| 0 <= x < pow2(acc) implies #[trigger] self.decode@[x] == (Entry { base_line: 0, num_bits: 0, symbol: 0 }) by {
                assert(cloned::<Entry>(Entry { base_line: 0, num_bits: 0, symbol: 0 }, self.decode@[x]));
            }
        }
        let negative_idx = place_negative_symbols(&mut self.decode, &self.symbol_probabilities, self.accuracy_log);
        let ghost d1 = self.decode@;
        if self.accuracy_log == 1 || self.accuracy_log == 3 {
            spread_to_slot_zero(&mut self.decode, &self.symbol_probabilities, negative_idx, self.accuracy_log);
            let ghost d2 = self.decode@;
            proof {
                assert(slot_zero_distribution(probs, acc));
                lemma_neg_count_nonneg(probs, probs.len() as int);
                assert(d1.len() == pow2(acc));
                assert forall|x: int| 0 <= x < negative_idx implies (#[trigger] d2[x]).symbol == if x == 0 {
                    last_positive(probs, probs.len() as int) as u8
                } else {
                    0u8
                } by {
                    assert(d1[x] == (Entry { base_line: 0, num_bits: 0, symbol: 0 }));
                    if x != 0 {
                        assert(d2[x] == d1[x]);
                    }
                }
            }
            let r = assign_states(
                &mut self.decode,
                &mut self.symbol_counter,
                &self.symbol_probabilities,
                negative_idx,
                self.accuracy_log,
            );
            proof {
                let d3 = self.decode@;
                let ts = pow2(acc);
                let neg = negative_idx as int;
                lemma_neg_count_nonneg(probs, probs.len() as int);
                assert forall|x: int| neg <= x < ts implies #[trigger] d3[x] == d1[x] by {
                    assert(d2[x] == d1[x]);
                }
                assert forall|s: int| 0 <= s < probs.len() && probs[s] == -1 implies {
                    let e = #[trigger] d3[ts - 1 - neg_count(probs, s)];
                    e.symbol == s && e.base_line == 0 && e.num_bits == acc
                } by {
                    lemma_negative_slots_high(probs, acc, s);
                    assert(d3[ts - 1 - neg_count(probs, s)] == d1[ts - 1 - neg_count(probs, s)]);
                }
                assert forall|x: int| 0 <= x < neg implies (#[trigger] d3[x]).symbol == if x == 0 {
                    last_positive(probs, probs.len() as int) as u8
                } else {
                    0u8
                } by {
                    assert(entry_symbols(d3)[x] == entry_symbols(d2)[x]);
                    assert(entry_symbols(d3)[x] == d3[x].symbol);
                    assert(entry_symbols(d2)[x] == d2[x].symbol);
                }
            }
            return r;
        }
        spread_symbols(&mut self.decode, &self.symbol_probabilities, negative_idx, self.accuracy_log);
        let ghost d2 = self.decode@;
        let r = assign_states(&mut self.decode, &mut self.symbol_counter, &self.symbol_probabilities, negative_idx, self.accuracy_log);
        proof {
            let d3 = self.decode@;
            let ts = pow2(acc);
            let neg = negative_idx as int;
            lemma_neg_count_nonneg(probs, probs.len() as int);
            assert forall|x: int| neg <= x < ts implies #[trigger] d3[x] == d1[x] by {
                assert(d2[x] == d1[x]);
            }
            assert forall|s: int| 0 <= s < probs.len() && probs[s] == -1 implies {
                let e = #[trigger] d3[ts - 1 - neg_count(probs, s)];
                e.symbol == s && e.base_line == 0 && e.num_bits == acc
            } by {
                lemma_negative_slots_high(probs, acc, s);
                assert(d3[ts - 1 - neg_count(probs, s)] == d1[ts - 1 - neg_count(probs, s)]);
            }
            assert forall|tt: int| 0 <= tt < ts && cyc(ts, tt) < neg implies #[trigger] d3[cyc(ts, tt)].symbol
                == spread_symbol(probs, low_rank(ts, neg, tt) as int) by {
                assert(d2[cyc(ts, tt)].symbol == spread_symbol(probs, low_rank(ts, neg, tt) as int));
                assert(entry_symbols(d3)[cyc(ts, tt)] == entry_symbols(d2)[cyc(ts, tt)]);
            }
            assert(spread_counts(d3, probs, neg)) by {
                assert forall|x: int| 0 <= x < neg implies (#[trigger] d3[x]).symbol < probs.len() && probs[d3[x].symbol as int] > 0 by {
                    assert(entry_symbols(d3)[x] == entry_symbols(d2)[x]);
                    assert(entry_symbols(d3)[x] == d3[x].symbol);
                    assert(entry_symbols(d2)[x] == d2[x].symbol);
                    assert(d2[x].symbol < probs.len());
                }
            }
            assert forall|x: int| 0 <= x < d3.len() implies {
                let e = #[trigger] d3[x];
                e.num_bits <= acc && e.base_line + pow2(e.num_bits as nat) <= d3.len()
            } by {
                if x >= neg {
                    assert(d3[x] == d1[x]);
                }
            }
        }
        r
    }

    pub fn build_from_probabilities(&mut self, acc_log: u8, probs: &[i32]) -> (r: Option<()>)
        requires
            acc_log == 0 || valid_distribution(probs@, acc_log as nat) || slot_zero_distribution(
                probs@,
                acc_log as nat,
            ),
        ensures
            final(self).max_symbol == old(self).max_symbol,
            acc_log == 0 ==> r is None && *final(self) == *old(self),
            acc_log != 0 ==> {
                &&& final(self).accuracy_log == acc_log
                &&& final(self).symbol_probabilities@ == probs@
                &&& (r is Some <==> probs@.len() <= old(self).max_symbol + 1)
                &&& r is Some && acc_log != 1 && acc_log != 3 ==> table_matches(
                    final(self).decode@,
                    probs@,
                    acc_log as nat,
                )
                &&& r is Some && acc_log != 1 && acc_log != 3 ==> table_sound(final(self).decode@, acc_log as nat)
                &&& r is Some && (acc_log == 1 || acc_log == 3) ==> slot_zero_table_matches(
                    final(self).decode@,
                    probs@,
                    acc_log as nat,
                )
            },
    {
        if acc_log == 0 {
            return None;
        }
        proof {
            if acc_log == 1 || acc_log == 3 {
                lemma_slot_zero_logs(acc_log as nat);
            }
        }
        let mut copied: Vec<i32> = Vec::new();
        copied.extend_from_slice(probs);
        proof {
            assert forall|x: int| 0 <= x < probs@.len() implies #[trigger] copied@[x] == probs@[x] by {
                assert(cloned::<i32>(probs@[x], copied@[x]));
            }
            assert(copied@ =~= probs@);
        }
        self.symbol_probabilities = copied;
        self.accuracy_log = acc_log;
        self.build_decoding_table()
    }
}

proof fn lemma_sums_prefix(a: Seq<i32>, b: Seq<i32>, n: int)
    requires
        0 <= n <= a.len(),
        n <= b.len(),
        forall|x: int| 0 <= x < n ==> a[x] == b[x],
    ensures
        pos_sum(a, n) == pos_sum(b, n),
        neg_count(a, n) == neg_count(b, n),
    decreases n,
{
    if n > 0 {
        lemma_sums_prefix(a, b, n - 1);
    }
}

proof fn lemma_sums_zeros(a: Seq<i32>, k: nat)
    ensures
        pos_sum(a + Seq::new(k, |i: int| 0i32), (a.len() + k) as int) == pos_sum(a, a.len() as int),
        neg_count(a + Seq::new(k, |i: int| 0i32), (a.len() + k) as int) == neg_count(a, a.len() as int),
    decreases k,
{
    let z = Seq::new(k, |i: int| 0i32);
    if k == 0 {
        assert(a + z =~= a);
    } else {
        let z1 = Seq::new((k - 1) as nat, |i: int| 0i32);
        lemma_sums_zeros(a, (k - 1) as nat);
        lemma_sums_prefix(a + z, a + z1, (a.len() + k - 1) as int);
    }
}

proof fn lemma_sums_push(a: Seq<i32>, v: i32)
    ensures
        pos_sum(a.push(v), a.len() + 1int) == pos_sum(a, a.len() as int) + if v > 0 { v as int } else { 0 },
        neg_count(a.push(v), a.len() + 1int) == neg_count(a, a.len() as int) + if v == -1 { 1int } else { 0 },
{
    lemma_sums_prefix(a.push(v), a, a.len() as int);
}

/// The probabilities a header gives are each at least -1 and give out
/// exactly `sum` states.
proof fn lemma_probs_from_valid(
    s: Seq<u8>,
    pos: int,
    counter: int,
    sum: int,
    acc: Seq<i32>,
    zero_run: bool,
)
    requires
        0 <= counter <= sum <= 0x10_0000,
        counter == pos_sum(acc, acc.len() as int) + neg_count(acc, acc.len() as int),
        forall|x: int| 0 <= x < acc.len() ==> #[trigger] acc[x] >= -1,
    ensures
        probs_from(s, pos, counter, sum, acc, zero_run) matches Some((probs, _)) ==> {
            &&& pos_sum(probs, probs.len() as int) + neg_count(probs, probs.len() as int) == sum
            &&& forall|x: int| 0 <= x < probs.len() ==> #[trigger] probs[x] >= -1
        },
    decreases 8 * s.len() - pos,
{
    if pos < 0 || pos > 8 * s.len() {
    } else if zero_run {
        if pos + 2 <= 8 * s.len() {
            let k = bits_value(s, pos, 2);
            let acc2 = acc + Seq::new(k, |i: int| 0i32);
            lemma_sums_zeros(acc, k);
            assert forall|x: int| 0 <= x < acc2.len() implies #[trigger] acc2[x] >= -1 by {
                if x < acc.len() {
                    assert(acc2[x] == acc[x]);
                }
            }
            lemma_probs_from_valid(s, pos + 2, counter, sum, acc2, k == 3);
        }
    } else if counter >= sum {
    } else {
        lemma_prob_value(s, pos, counter, sum);
        match prob_value(s, pos, counter, sum) {
            None => {},
            Some((v, np)) => {
                if np <= pos {
                } else {
                    let prob = v - 1;
                    if prob == 0 || prob > 0 || prob == -1 {
                        let acc2 = acc.push(prob as i32);
                        lemma_sums_push(acc, prob as i32);
                        assert forall|x: int| 0 <= x < acc2.len() implies #[trigger] acc2[x] >= -1 by {
                            if x < acc.len() {
                                assert(acc2[x] == acc[x]);
                            }
                        }
                        if prob == 0 {
                            lemma_probs_from_valid(s, np, counter, sum, acc2, true);
                        } else if prob > 0 {
                            lemma_probs_from_valid(s, np, counter + prob, sum, acc2, false);
                        } else {
                            lemma_probs_from_valid(s, np, counter + 1, sum, acc2, false);
                        }
                    }
                }
            },
        }
    }
}

impl FSETable {
    /// Returns how many BYTEs (not bits) were read while building the decoder.
    pub fn build_decoder(&mut self, source: &[u8], max_log: u8) -> (r: Option<usize>)
        requires
            12 * source@.len() <= usize::MAX,
        ensures
            final(self).max_symbol == old(self).max_symbol,
            match read_probabilities_spec(source@, max_log as nat, old(self).max_symbol as nat) {
                None => r is None,
                Some((acc, probs, bytes)) => {
                    &&& r is Some && r.unwrap() as nat == bytes
                    &&& final(self).accuracy_log == acc
                    &&& final(self).symbol_probabilities@ == probs
                    &&& table_matches(final(self).decode@, probs, acc)
                    &&& table_sound(final(self).decode@, acc)
                },
            },
    {
        self.accuracy_log = 0;
        let bytes_read = match self.read_probabilities(source, max_log) {
            Some(b) => b,
            None => return None,
        };
        proof {
            let s = source@;
            let acc: nat = (ACC_LOG_OFFSET + bits_value(s, 0, 4)) as nat;
            lemma_bits_value_bound(s, 0, 4);
            assert(pow2(4) == 16) by {
                lemma2_to64();
            }
            lemma_pow2_increases_le(acc, 20);
            assert(pow2(20) == 0x10_0000) by {
                lemma2_to64();
            }
            lemma_probs_from_valid(s, 4, 0, pow2(acc) as int, Seq::empty(), false);
            lemma_log_ok(acc);
        }
        match self.build_decoding_table() {
            Some(_) => {},
            None => return None,
        }
        Some(bytes_read)
    }
}

/// A table that decoders can walk: its size is two to its accuracy log and
/// every state moves within it.
pub open spec fn table_ready(table: &FSETable) -> bool {
    &&& 1 <= table.accuracy_log <= 20
    &&& table.decode@.len() == pow2(table.accuracy_log as nat)
    &&& table_sound(table.decode@, table.accuracy_log as nat)
}

/// A decoder walking the states of an FSE table.
pub struct FSEDecoder<'table> {
    pub state: Entry,
    pub table: &'table FSETable,
}

impl<'t> FSEDecoder<'t> {
    /// The table being walked.
    pub closed spec fn table(&self) -> &'t FSETable {
        self.table
    }

    /// The decoder's state is a state the table's moves stay within.
    pub open spec fn wf(&self) -> bool {
        &&& table_ready(self.table())
        &&& self.state.num_bits <= self.table().accuracy_log
        &&& self.state.base_line + pow2(self.state.num_bits as nat) <= self.table().decode@.len()
    }

    pub fn new(table: &'t FSETable) -> (d: FSEDecoder<'t>)
        ensures
            d.table() == table,
            d.state == if table.decode@.len() > 0 {
                table.decode@[0]
            } else {
                Entry { base_line: 0, num_bits: 0, symbol: 0 }
            },
            table_ready(table) ==> d.wf(),
    {
        let state = if table.decode.len() > 0 {
            table.decode[0]
        } else {
            Entry { base_line: 0, num_bits: 0, symbol: 0 }
        };
        proof {
            if table_ready(table) {
                lemma_pow2_pos(table.accuracy_log as nat);
                assert(table.decode@[0].num_bits <= table.accuracy_log);
            }
        }
        FSEDecoder { state, table }
    }

    /// Reads the first state: `accuracy_log` bits name it. Fails on a table
    /// with no states.
    pub fn init_state(&mut self, bits: &mut BitReaderReversed<'_>) -> (r: Option<()>)
        requires
            old(self).table().accuracy_log != 0 ==> old(self).table().accuracy_log <= 56 && pow2(
                old(self).table().accuracy_log as nat,
            ) <= old(self).table().decode@.len(),
            old(bits).wf(),
            old(bits).remaining() >= old(bits).read_floor(),
        ensures
            final(self).table() == old(self).table(),
            old(self).table().accuracy_log == 0 ==> r is None && *final(self) == *old(self) && *final(bits) == *old(bits),
            old(self).table().accuracy_log != 0 ==> {
                let acc = old(self).table().accuracy_log;
                &&& r is Some
                &&& final(bits).wf()
                &&& final(bits).src() == old(bits).src()
                &&& final(bits).remaining() == old(bits).remaining() - acc
                &&& final(self).state == old(self).table().decode@[bits_value(
                    old(bits).src(),
                    old(bits).remaining() - acc,
                    acc as nat,
                ) as int]
                &&& table_ready(old(self).table()) ==> final(self).wf()
            },
    {
        if self.table.accuracy_log == 0 {
            return None;
        }
        let new_state = bits.get_bits(self.table.accuracy_log);
        proof {
            lemma_bits_value_bound(old(bits).src(), old(bits).remaining() - self.table.accuracy_log, self.table.accuracy_log as nat);
        }
        let table_len = self.table.decode.len();
        assert(new_state < table_len);
        self.state = self.table.decode[new_state as usize];
        proof {
            let x = new_state as int;
            if table_ready(self.table) {
                assert(self.table.decode@[x].num_bits <= self.table.accuracy_log);
            }
        }
        Some(())
    }

    /// Moves to the next state: the state's bit count of fresh bits are added
    /// to its base line.
    pub fn update_state(&mut self, bits: &mut BitReaderReversed<'_>)
        requires
            old(self).wf() || {
                &&& old(self).state.base_line + pow2(old(self).state.num_bits as nat) <= old(self).table().decode@.len()
                &&& old(self).state.base_line + pow2(old(self).state.num_bits as nat) <= 0x1_0000_0000
            },
            old(bits).wf(),
            old(bits).remaining() >= old(bits).read_floor(),
        ensures
            final(self).table() == old(self).table(),
            table_ready(old(self).table()) ==> final(self).wf(),
            final(bits).wf(),
            final(bits).src() == old(bits).src(),
            final(bits).remaining() == old(bits).remaining() - old(self).state.num_bits,
            final(self).state == old(self).table().decode@[old(self).state.base_line + bits_value(
                old(bits).src(),
                old(bits).remaining() - old(self).state.num_bits,
                old(self).state.num_bits as nat,
            )],
    {
        let num_bits = self.state.num_bits;
        proof {
            if self.wf() {
                lemma_pow2_increases_le(self.table.accuracy_log as nat, 20);
                assert(pow2(20) == 0x10_0000) by {
                    lemma2_to64();
                }
            }
            if num_bits > 32 {
                lemma_pow2_strictly_increases(32, num_bits as nat);
            }
            assert(pow2(32) == 0x1_0000_0000) by {
                lemma2_to64();
            }
        }
        let add = bits.get_bits(num_bits);
        let base_line = self.state.base_line;
        proof {
            lemma_bits_value_bound(old(bits).src(), old(bits).remaining() - num_bits, num_bits as nat);
        }
        let new_state = base_line + add as u32;
        self.state = self.table.decode[new_state as usize];
        proof {
            let x = new_state as int;
            if table_ready(self.table) {
                assert(self.table.decode@[x].num_bits <= self.table.accuracy_log);
            }
        }
    }

    pub fn decode_symbol(&self) -> (s: u8)
        ensures
            s == self.state.symbol,
    {
        self.state.symbol
    }
}

/// The decoding table that `probs` give at accuracy log `acc`.
pub open spec fn fse_table_of(probs: Seq<i32>, acc: nat) -> Seq<Entry> {
    choose|d: Seq<Entry>| table_matches(d, probs, acc)
}

proof fn lemma_negative_slot_exists(probs: Seq<i32>, k: int, n: int)
    requires
        0 <= k < neg_count(probs, n),
        0 <= n <= probs.len(),
    ensures
        exists|s: int| 0 <= s < n && probs[s] == -1 && #[trigger] neg_count(probs, s) == k,
    decreases n,
{
    if n > 0 {
        if k < neg_count(probs, n - 1) {
            lemma_negative_slot_exists(probs, k, n - 1);
        } else {
            assert(probs[n - 1] == -1 && neg_count(probs, n - 1) == k);
        }
    }
}

proof fn lemma_count_sym_agree(a: Seq<u8>, b: Seq<u8>, s: u8, n: int)
    requires
        0 <= n <= a.len(),
        n <= b.len(),
        forall|x: int| 0 <= x < n ==> a[x] == b[x],
    ensures
        count_sym(a, s, n) == count_sym(b, s, n),
    decreases n,
{
    if n > 0 {
        lemma_count_sym_agree(a, b, s, n - 1);
    }
}

/// The probabilities determine the decoding table: two tables that both
/// match them are the same.
pub proof fn law_fse_table_unique(d1: Seq<Entry>, d2: Seq<Entry>, probs: Seq<i32>, acc: nat)
    requires
        valid_distribution(probs, acc),
        table_matches(d1, probs, acc),
        table_matches(d2, probs, acc),
    ensures
        d1 == d2,
{
    let ts = pow2(acc);
    let nc = neg_count(probs, probs.len() as int);
    let neg = ts - nc;
    lemma_neg_count_nonneg(probs, probs.len() as int);
    lemma_pos_sum_nonneg(probs, probs.len() as int);
    assert forall|x: int| 0 <= x < ts implies (#[trigger] d1[x]).symbol == d2[x].symbol by {
        if x < neg {
            lemma_cyc_surjective(acc, x);
            let tt = choose|tt: int| 0 <= tt < ts && cyc(ts, tt) == x;
            assert(d1[cyc(ts, tt)].symbol == spread_symbol(probs, low_rank(ts, neg, tt) as int));
            assert(d2[cyc(ts, tt)].symbol == spread_symbol(probs, low_rank(ts, neg, tt) as int));
        } else {
            lemma_negative_slot_exists(probs, ts - 1 - x, probs.len() as int);
            let s = choose|s: int| 0 <= s < probs.len() && probs[s] == -1 && #[trigger] neg_count(probs, s) == ts - 1 - x;
            assert(d1[ts - 1 - neg_count(probs, s)].symbol == s);
            assert(d2[ts - 1 - neg_count(probs, s)].symbol == s);
        }
    }
    let e1 = entry_symbols(d1);
    let e2 = entry_symbols(d2);
    assert forall|x: int| 0 <= x < ts implies #[trigger] d1[x] == d2[x] by {
        if x < neg {
            assert forall|y: int| 0 <= y < x implies e1[y] == e2[y] by {
                assert(d1[y].symbol == d2[y].symbol);
            }
            lemma_count_sym_agree(e1, e2, d1[x].symbol, x);
            assert(d1[x].symbol == d2[x].symbol);
        } else {
            lemma_negative_slot_exists(probs, ts - 1 - x, probs.len() as int);
            let s = choose|s: int| 0 <= s < probs.len() && probs[s] == -1 && #[trigger] neg_count(probs, s) == ts - 1 - x;
            assert(d1[ts - 1 - neg_count(probs, s)].num_bits == acc);
            assert(d2[ts - 1 - neg_count(probs, s)].num_bits == acc);
        }
    }
    assert(d1 =~= d2);
}

/// At accuracy logs 1 and 3 too, the probabilities determine the decoding
/// table: two tables that both match them are the same.
pub proof fn law_slot_zero_table_unique(d1: Seq<Entry>, d2: Seq<Entry>, probs: Seq<i32>, acc: nat)
    requires
        slot_zero_distribution(probs, acc),
        slot_zero_table_matches(d1, probs, acc),
        slot_zero_table_matches(d2, probs, acc),
    ensures
        d1 == d2,
{
    let ts = pow2(acc);
    let nc = neg_count(probs, probs.len() as int);
    let neg = ts - nc;
    lemma_neg_count_nonneg(probs, probs.len() as int);
    lemma_pos_sum_nonneg(probs, probs.len() as int);
    assert forall|x: int| 0 <= x < ts implies (#[trigger] d1[x]).symbol == d2[x].symbol by {
        if x >= neg {
            lemma_negative_slot_exists(probs, ts - 1 - x, probs.len() as int);
            let s = choose|s: int| 0 <= s < probs.len() && probs[s] == -1 && #[trigger] neg_count(probs, s) == ts - 1 - x;
            assert(d1[ts - 1 - neg_count(probs, s)].symbol == s);
            assert(d2[ts - 1 - neg_count(probs, s)].symbol == s);
        }
    }
    let e1 = entry_symbols(d1);
    let e2 = entry_symbols(d2);
    assert forall|x: int| 0 <= x < ts implies #[trigger] d1[x] == d2[x] by {
        if x < neg {
            assert forall|y: int| 0 <= y < x implies e1[y] == e2[y] by {
                assert(d1[y].symbol == d2[y].symbol);
            }
            lemma_count_sym_agree(e1, e2, d1[x].symbol, x);
            assert(d1[x].symbol == d2[x].symbol);
        } else {
            lemma_negative_slot_exists(probs, ts - 1 - x, probs.len() as int);
            let s = choose|s: int| 0 <= s < probs.len() && probs[s] == -1 && #[trigger] neg_count(probs, s) == ts - 1 - x;
            assert(d1[ts - 1 - neg_count(probs, s)].num_bits == acc);
            assert(d2[ts - 1 - neg_count(probs, s)].num_bits == acc);
        }
    }
    assert(d1 =~= d2);
}

/// A table that matches the probabilities is the table they give.
pub proof fn lemma_table_is_table_of(d: Seq<Entry>, probs: Seq<i32>, acc: nat)
    requires
        valid_distribution(probs, acc),
        table_matches(d, probs, acc),
    ensures
        fse_table_of(probs, acc) == d,
{
    let c = fse_table_of(probs, acc);
    assert(table_matches(c, probs, acc));
    law_fse_table_unique(c, d, probs, acc);
}

/// The probabilities a table header gives form a valid distribution for its
/// accuracy log.
pub proof fn lemma_probs_valid(s: Seq<u8>, acc: nat)
    requires
        acc == ACC_LOG_OFFSET + bits_value(s, 0, 4),
        acc <= 20,
        read_probabilities_spec(s, 6, 255) is Some,
    ensures
        read_probabilities_spec(s, 6, 255).unwrap().0 == acc,
        valid_distribution(read_probabilities_spec(s, 6, 255).unwrap().1, acc),
{
    lemma_pow2_increases_le(acc, 20);
    assert(pow2(20) == 0x10_0000) by {
        lemma2_to64();
    }
    lemma_probs_from_valid(s, 4, 0, pow2(acc) as int, Seq::empty(), false);
    lemma_log_ok(acc);
}

} // verus!
