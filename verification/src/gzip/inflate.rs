//! What a gzip stream decompresses to, and how the extracted literals cover
//! it: every byte of the decompressed data is a literal byte, since a
//! back-reference only repeats bytes already produced.
use vstd::prelude::*;
use vstd::arithmetic::power2::pow2;
use crate::block::{CompressedBlockView, all_literals, lemma_all_literals_push};
use crate::zstd::bit_io::bits_value;
use super::bitstream::align_up;
use super::deflate::{
    block_spec, codes_spec, decode_spec, dist_extra, dynamic_spec, fixed_dist_lens, fixed_lit_lens, length_extra,
    stored_spec, block_body_spec,
};
use super::header::{deflate_block_view, gzip_header_spec, member_blocks_spec, member_spec};
use super::{gzip_extract_spec, gzip_run};

verus! {

/// The shortest match that length symbol `257 + s` stands for.
pub open spec fn length_base(s: nat) -> nat {
    if s < 8 {
        3 + s
    } else if s >= 28 {
        258
    } else {
        (3 + pow2(((s - 8) / 4 + 1) as nat) * (4 + (s - 8) % 4)) as nat
    }
}

/// The shortest distance that distance symbol `s` stands for.
pub open spec fn dist_base(s: nat) -> nat {
    if s < 4 {
        1 + s
    } else {
        1 + pow2(((s - 2) / 2) as nat) * (2 + s % 2)
    }
}

/// `out` followed by `n` bytes, each a copy of the byte `dist` back.
pub open spec fn copy_back(out: Seq<u8>, dist: nat, n: nat) -> Seq<u8>
    decreases n,
{
    if n == 0 {
        out
    } else {
        let o = copy_back(out, dist, (n - 1) as nat);
        o.push(o[o.len() - dist])
    }
}

/// What a Huffman-coded block body from bit `p` decompresses to after
/// `out`, and where it ends: literals are output, a length/distance pair
/// copies that many bytes from that far back, which must not reach before
/// the start of the output.
pub open spec fn inflate_codes(lit: Seq<u8>, dist: Seq<u8>, d: Seq<u8>, p: nat, out: Seq<u8>) -> Option<(Seq<u8>, nat)>
    decreases 8 * d.len() - p,
{
    match decode_spec(lit, d, p) {
        None => None,
        Some((sym, p1)) => if p1 <= p || p1 > 8 * d.len() {
            None
        } else if sym < 256 {
            inflate_codes(lit, dist, d, p1, out.push(sym as u8))
        } else if sym == 256 {
            Some((out, p1))
        } else if sym >= 257 + 29 {
            None
        } else {
            let s = (sym - 257) as nat;
            let p2 = p1 + length_extra(s);
            if p2 > 8 * d.len() {
                None
            } else {
                match decode_spec(dist, d, p2) {
                    None => None,
                    Some((ds, p3)) => if ds >= 30 || p3 <= p2 {
                        None
                    } else {
                        let p4 = p3 + dist_extra(ds);
                        let n = length_base(s) + bits_value(d, p1 as int, length_extra(s));
                        let back = dist_base(ds) + bits_value(d, p3 as int, dist_extra(ds));
                        if p4 > 8 * d.len() || back > out.len() {
                            None
                        } else {
                            inflate_codes(lit, dist, d, p4, copy_back(out, back, n))
                        }
                    },
                }
            }
        },
    }
}

/// What the DEFLATE block at bit `p` decompresses to after `out`, where it
/// ends, and whether it is the last block.
pub open spec fn inflate_block(d: Seq<u8>, p: nat, out: Seq<u8>) -> Option<(Seq<u8>, nat, bool)> {
    if p + 3 > 8 * d.len() {
        None
    } else {
        let last = bits_value(d, p as int, 1) == 1;
        let btype = bits_value(d, p as int + 1, 2);
        let q = p + 3;
        if btype == 0 {
            match stored_spec(d, q) {
                Err(_) => None,
                Ok((bytes, end)) => Some((out + bytes, end, last)),
            }
        } else if btype == 1 {
            match inflate_codes(fixed_lit_lens(), fixed_dist_lens(), d, q, out) {
                None => None,
                Some((o, end)) => Some((o, end, last)),
            }
        } else if btype == 2 {
            match dynamic_spec(d, q) {
                Err(_) => None,
                Ok((lit, dist, q2)) => match inflate_codes(lit, dist, d, q2, out) {
                    None => None,
                    Some((o, end)) => Some((o, end, last)),
                },
            }
        } else {
            None
        }
    }
}

/// What the blocks of a member from bit `p` decompress to after `out`, and
/// where the member ends, after its trailer.
pub open spec fn inflate_member_blocks(d: Seq<u8>, p: nat, out: Seq<u8>) -> Option<(Seq<u8>, nat)>
    decreases 8 * d.len() - p,
{
    match inflate_block(d, p, out) {
        None => None,
        Some((o, end, last)) => if end <= p || end > 8 * d.len() {
            None
        } else if last {
            let tr = align_up(end) / 8;
            if tr + 8 > d.len() {
                None
            } else {
                Some((o, tr + 8))
            }
        } else {
            inflate_member_blocks(d, end, o)
        },
    }
}

/// What the gzip stream from byte `b` decompresses to after `out`: each
/// member's data in turn.
pub open spec fn gzip_inflate_run(d: Seq<u8>, b: nat, out: Seq<u8>) -> Option<Seq<u8>>
    decreases d.len() - b,
{
    if b >= d.len() {
        Some(out)
    } else {
        match gzip_header_spec(d, b) {
            Err(_) => None,
            Ok(h) => match inflate_member_blocks(d, 8 * h, Seq::empty()) {
                None => None,
                Some((o, e)) => if e <= b || e > d.len() {
                    None
                } else {
                    gzip_inflate_run(d, e, out + o)
                },
            },
        }
    }
}

/// What a gzip stream decompresses to.
pub open spec fn gzip_inflate_spec(d: Seq<u8>) -> Option<Seq<u8>> {
    gzip_inflate_run(d, 0, Seq::empty())
}

/// Every byte of `out` is a byte of `lits`.
pub open spec fn covered(out: Seq<u8>, lits: Seq<u8>) -> bool {
    forall|i: int| 0 <= i < out.len() ==> #[trigger] lits.contains(out[i])
}

proof fn lemma_covered_grow(out: Seq<u8>, a: Seq<u8>, b: Seq<u8>)
    requires
        covered(out, a),
    ensures
        covered(out, a + b),
{
    assert forall|i: int| 0 <= i < out.len() implies #[trigger] (a + b).contains(out[i]) by {
        assert(a.contains(out[i]));
        let j = choose|j: int| 0 <= j < a.len() && a[j] == out[i];
        assert((a + b)[j] == out[i]);
    }
}

proof fn lemma_covered_push(out: Seq<u8>, lits: Seq<u8>, x: u8)
    requires
        covered(out, lits),
    ensures
        covered(out.push(x), lits.push(x)),
{
    assert forall|i: int| 0 <= i < out.push(x).len() implies #[trigger] lits.push(x).contains(out.push(x)[i]) by {
        if i < out.len() {
            assert(lits.contains(out[i]));
            let j = choose|j: int| 0 <= j < lits.len() && lits[j] == out[i];
            assert(lits.push(x)[j] == out.push(x)[i]);
        } else {
            assert(lits.push(x)[lits.len() as int] == x);
        }
    }
}

proof fn lemma_copy_covered(out: Seq<u8>, back: nat, n: nat, lits: Seq<u8>)
    requires
        1 <= back <= out.len(),
        covered(out, lits),
    ensures
        copy_back(out, back, n).len() == out.len() + n,
        covered(copy_back(out, back, n), lits),
    decreases n,
{
    if n > 0 {
        lemma_copy_covered(out, back, (n - 1) as nat, lits);
        let o = copy_back(out, back, (n - 1) as nat);
        assert forall|i: int| 0 <= i < o.push(o[o.len() - back]).len() implies #[trigger] lits.contains(
            o.push(o[o.len() - back])[i],
        ) by {
            if i < o.len() {
                assert(lits.contains(o[i]));
            } else {
                assert(lits.contains(o[o.len() - back]));
            }
        }
    }
}

proof fn lemma_codes_cover(lit: Seq<u8>, dist: Seq<u8>, d: Seq<u8>, p: nat, acc: Seq<u8>, out: Seq<u8>, prev: Seq<u8>)
    requires
        codes_spec(lit, dist, d, p, acc) is Ok,
        inflate_codes(lit, dist, d, p, out) is Some,
        covered(out, prev + acc),
    ensures
        codes_spec(lit, dist, d, p, acc)->Ok_0.1 == inflate_codes(lit, dist, d, p, out)->Some_0.1,
        covered(inflate_codes(lit, dist, d, p, out)->Some_0.0, prev + codes_spec(lit, dist, d, p, acc)->Ok_0.0),
    decreases 8 * d.len() - p,
{
    let (sym, p1) = decode_spec(lit, d, p)->Some_0;
    if sym < 256 {
        lemma_covered_push(out, prev + acc, sym as u8);
        assert((prev + acc).push(sym as u8) =~= prev + acc.push(sym as u8));
        lemma_codes_cover(lit, dist, d, p1, acc.push(sym as u8), out.push(sym as u8), prev);
    } else if sym > 256 {
        let s = (sym - 257) as nat;
        let p2 = p1 + length_extra(s);
        let (ds, p3) = decode_spec(dist, d, p2)->Some_0;
        let p4 = p3 + dist_extra(ds);
        let n = length_base(s) + bits_value(d, p1 as int, length_extra(s));
        let back = dist_base(ds) + bits_value(d, p3 as int, dist_extra(ds));
        vstd::arithmetic::power2::lemma_pow2_pos(((ds - 2) / 2) as nat);
        lemma_copy_covered(out, back, n, prev + acc);
        lemma_codes_cover(lit, dist, d, p4, acc, copy_back(out, back, n), prev);
    }
}

proof fn lemma_block_cover(d: Seq<u8>, p: nat, out: Seq<u8>, prev: Seq<u8>)
    requires
        block_spec(d, p) is Ok,
        inflate_block(d, p, out) is Some,
        covered(out, prev),
    ensures
        block_spec(d, p)->Ok_0.1 == inflate_block(d, p, out)->Some_0.1,
        block_spec(d, p)->Ok_0.2 == inflate_block(d, p, out)->Some_0.2,
        covered(inflate_block(d, p, out)->Some_0.0, prev + block_spec(d, p)->Ok_0.0),
{
    reveal(block_spec);
    let btype = bits_value(d, p as int + 1, 2);
    let q = p + 3;
    assert(prev + Seq::<u8>::empty() =~= prev);
    if btype == 0 {
        let (bytes, end) = stored_spec(d, q)->Ok_0;
        lemma_covered_grow(out, prev, bytes);
        assert forall|i: int| 0 <= i < (out + bytes).len() implies #[trigger] (prev + bytes).contains((out + bytes)[i]) by {
            if i >= out.len() {
                assert((prev + bytes)[prev.len() + (i - out.len())] == (out + bytes)[i]);
            } else {
                assert((prev + bytes).contains(out[i]));
            }
        }
    } else if btype == 1 {
        lemma_codes_cover(fixed_lit_lens(), fixed_dist_lens(), d, q, Seq::empty(), out, prev);
    } else {
        let (lit, dist, q2) = dynamic_spec(d, q)->Ok_0;
        lemma_codes_cover(lit, dist, d, q2, Seq::empty(), out, prev);
    }
}

proof fn lemma_member_blocks_cover(d: Seq<u8>, p: nat, blocks: Seq<CompressedBlockView>, total: nat, out: Seq<u8>)
    requires
        member_blocks_spec(d, p, blocks, total) is Ok,
        inflate_member_blocks(d, p, out) is Some,
        covered(out, all_literals(blocks)),
    ensures
        member_blocks_spec(d, p, blocks, total)->Ok_0.2 == inflate_member_blocks(d, p, out)->Some_0.1,
        covered(
            inflate_member_blocks(d, p, out)->Some_0.0,
            all_literals(member_blocks_spec(d, p, blocks, total)->Ok_0.0),
        ),
        exists|rest: Seq<u8>| all_literals(member_blocks_spec(d, p, blocks, total)->Ok_0.0) == all_literals(blocks) + rest,
    decreases 8 * d.len() - p,
{
    let (lits, end, last, ulen) = block_spec(d, p)->Ok_0;
    lemma_block_cover(d, p, out, all_literals(blocks));
    let o = inflate_block(d, p, out)->Some_0.0;
    let bs = blocks.push(deflate_block_view(p, end, ulen, lits));
    lemma_all_literals_push(blocks, deflate_block_view(p, end, ulen, lits));
    if last {
        assert(all_literals(bs) == all_literals(blocks) + lits);
    } else {
        lemma_member_blocks_cover(d, end, bs, total + lits.len(), o);
        let rest = choose|rest: Seq<u8>| all_literals(member_blocks_spec(d, end, bs, total + lits.len())->Ok_0.0)
            == all_literals(bs) + rest;
        assert(all_literals(blocks) + (lits + rest) =~= all_literals(bs) + rest);
    }
}

proof fn lemma_run_cover(d: Seq<u8>, b: nat, blocks: Seq<CompressedBlockView>, total: nat, members: nat, out: Seq<u8>)
    requires
        gzip_run(d, b, blocks, total, members) is Ok,
        gzip_inflate_run(d, b, out) is Some,
        covered(out, all_literals(blocks)),
    ensures
        covered(gzip_inflate_run(d, b, out)->Some_0, all_literals(gzip_run(d, b, blocks, total, members)->Ok_0)),
    decreases d.len() - b,
{
    if b < d.len() {
        reveal(member_spec);
        let h = gzip_header_spec(d, b)->Ok_0;
        lemma_member_blocks_cover(d, 8 * h, blocks, total, Seq::empty());
        let (bs, t, e) = member_blocks_spec(d, 8 * h, blocks, total)->Ok_0;
        let o = inflate_member_blocks(d, 8 * h, Seq::empty())->Some_0.0;
        let rest = choose|rest: Seq<u8>| all_literals(bs) == all_literals(blocks) + rest;
        lemma_covered_grow(out, all_literals(blocks), rest);
        assert forall|i: int| 0 <= i < (out + o).len() implies #[trigger] all_literals(bs).contains((out + o)[i]) by {
            if i < out.len() {
                assert(all_literals(bs).contains(out[i]));
            } else {
                assert(all_literals(bs).contains(o[i - out.len()]));
            }
        }
        lemma_run_cover(d, e, bs, t, members + 1, out + o);
    }
}

/// Extraction misses no byte value: where a gzip stream both extracts and
/// decompresses, every byte of the decompressed data occurs among the
/// extracted literals, since back-references only repeat earlier bytes.
pub proof fn law_gzip_literals_cover_output(d: Seq<u8>)
    requires
        gzip_extract_spec(d) is Ok,
        gzip_inflate_spec(d) is Some,
    ensures
        covered(gzip_inflate_spec(d)->Some_0, all_literals(gzip_extract_spec(d)->Ok_0)),
{
    lemma_run_cover(d, 0, Seq::empty(), 0, 0, Seq::empty());
}

/// `a` occurs in `b` in order, not necessarily in one stretch.
#[verifier::opaque]
pub open spec fn is_subsequence(a: Seq<u8>, b: Seq<u8>) -> bool
    decreases b.len(),
{
    if a.len() == 0 {
        true
    } else if b.len() == 0 {
        false
    } else if a.last() == b.last() {
        is_subsequence(a.drop_last(), b.drop_last())
    } else {
        is_subsequence(a, b.drop_last())
    }
}

proof fn lemma_subseq_drop(a: Seq<u8>, b: Seq<u8>)
    requires
        a.len() > 0,
        is_subsequence(a, b),
    ensures
        is_subsequence(a.drop_last(), b),
    decreases b.len(),
{
    reveal(is_subsequence);
    if a.drop_last().len() > 0 && b.len() > 0 {
        if a.last() == b.last() {
            lemma_subseq_drop(a.drop_last(), b.drop_last());
            if a.drop_last().last() != b.last() {
                assert(is_subsequence(a.drop_last(), b));
            }
        } else {
            lemma_subseq_drop(a, b.drop_last());
            if a.drop_last().last() == b.last() {
                lemma_subseq_drop(a.drop_last(), b.drop_last());
            }
        }
    }
}

proof fn lemma_subseq_push_right(a: Seq<u8>, b: Seq<u8>, x: u8)
    requires
        is_subsequence(a, b),
    ensures
        is_subsequence(a, b.push(x)),
{
    reveal(is_subsequence);
    assert(b.push(x).drop_last() =~= b);
    if a.len() > 0 && a.last() == x {
        lemma_subseq_drop(a, b);
    }
}

proof fn lemma_subseq_push_both(a: Seq<u8>, b: Seq<u8>, x: u8)
    requires
        is_subsequence(a, b),
    ensures
        is_subsequence(a.push(x), b.push(x)),
{
    reveal(is_subsequence);
    assert(b.push(x).drop_last() =~= b);
    assert(a.push(x).drop_last() =~= a);
}

proof fn lemma_subseq_append_right(a: Seq<u8>, b: Seq<u8>, c: Seq<u8>)
    requires
        is_subsequence(a, b),
    ensures
        is_subsequence(a, b + c),
    decreases c.len(),
{
    reveal(is_subsequence);
    if c.len() == 0 {
        assert(b + c =~= b);
    } else {
        lemma_subseq_append_right(a, b, c.drop_last());
        lemma_subseq_push_right(a, b + c.drop_last(), c.last());
        assert((b + c.drop_last()).push(c.last()) =~= b + c);
    }
}

proof fn lemma_subseq_append_both(a: Seq<u8>, b: Seq<u8>, c: Seq<u8>)
    requires
        is_subsequence(a, b),
    ensures
        is_subsequence(a + c, b + c),
    decreases c.len(),
{
    reveal(is_subsequence);
    if c.len() == 0 {
        assert(a + c =~= a);
        assert(b + c =~= b);
    } else {
        lemma_subseq_append_both(a, b, c.drop_last());
        lemma_subseq_push_both(a + c.drop_last(), b + c.drop_last(), c.last());
        assert((a + c.drop_last()).push(c.last()) =~= a + c);
        assert((b + c.drop_last()).push(c.last()) =~= b + c);
    }
}

proof fn lemma_subseq_concat(a: Seq<u8>, b: Seq<u8>, c: Seq<u8>, e: Seq<u8>)
    requires
        is_subsequence(a, b),
        is_subsequence(c, e),
    ensures
        is_subsequence(a + c, b + e),
    decreases e.len(),
{
    reveal(is_subsequence);
    if c.len() == 0 {
        assert(a + c =~= a);
        lemma_subseq_append_right(a, b, e);
    } else if e.len() > 0 {
        assert((a + c).drop_last() =~= a + c.drop_last());
        assert((b + e).drop_last() =~= b + e.drop_last());
        assert((a + c).last() == c.last() && (b + e).last() == e.last());
        if c.last() == e.last() {
            lemma_subseq_concat(a, b, c.drop_last(), e.drop_last());
        } else {
            lemma_subseq_concat(a, b, c, e.drop_last());
        }
    }
}

proof fn lemma_copy_subseq(a: Seq<u8>, out: Seq<u8>, back: nat, n: nat)
    requires
        is_subsequence(a, out),
    ensures
        is_subsequence(a, copy_back(out, back, n)),
    decreases n,
{
    if n > 0 {
        lemma_copy_subseq(a, out, back, (n - 1) as nat);
        let o = copy_back(out, back, (n - 1) as nat);
        lemma_subseq_push_right(a, o, o[o.len() - back]);
    }
}

proof fn lemma_codes_subseq(lit: Seq<u8>, dist: Seq<u8>, d: Seq<u8>, p: nat, acc: Seq<u8>, out: Seq<u8>, mine: Seq<u8>)
    requires
        codes_spec(lit, dist, d, p, acc) is Ok,
        inflate_codes(lit, dist, d, p, out) is Some,
        is_subsequence(mine + acc, out),
    ensures
        codes_spec(lit, dist, d, p, acc)->Ok_0.1 == inflate_codes(lit, dist, d, p, out)->Some_0.1,
        is_subsequence(mine + codes_spec(lit, dist, d, p, acc)->Ok_0.0, inflate_codes(lit, dist, d, p, out)->Some_0.0),
    decreases 8 * d.len() - p,
{
    let (sym, p1) = decode_spec(lit, d, p)->Some_0;
    if sym < 256 {
        lemma_subseq_push_both(mine + acc, out, sym as u8);
        assert((mine + acc).push(sym as u8) =~= mine + acc.push(sym as u8));
        lemma_codes_subseq(lit, dist, d, p1, acc.push(sym as u8), out.push(sym as u8), mine);
    } else if sym > 256 {
        let s = (sym - 257) as nat;
        let p2 = p1 + length_extra(s);
        let (ds, p3) = decode_spec(dist, d, p2)->Some_0;
        let p4 = p3 + dist_extra(ds);
        let n = length_base(s) + bits_value(d, p1 as int, length_extra(s));
        let back = dist_base(ds) + bits_value(d, p3 as int, dist_extra(ds));
        lemma_copy_subseq(mine + acc, out, back, n);
        lemma_codes_subseq(lit, dist, d, p4, acc, copy_back(out, back, n), mine);
    }
}

proof fn lemma_block_subseq(d: Seq<u8>, p: nat, out: Seq<u8>, mine: Seq<u8>)
    requires
        block_spec(d, p) is Ok,
        inflate_block(d, p, out) is Some,
        is_subsequence(mine, out),
    ensures
        block_spec(d, p)->Ok_0.1 == inflate_block(d, p, out)->Some_0.1,
        block_spec(d, p)->Ok_0.2 == inflate_block(d, p, out)->Some_0.2,
        is_subsequence(mine + block_spec(d, p)->Ok_0.0, inflate_block(d, p, out)->Some_0.0),
{
    reveal(block_spec);
    let btype = bits_value(d, p as int + 1, 2);
    let q = p + 3;
    assert(mine + Seq::<u8>::empty() =~= mine);
    if btype == 0 {
        let (bytes, end) = stored_spec(d, q)->Ok_0;
        lemma_subseq_append_both(mine, out, bytes);
    } else if btype == 1 {
        lemma_codes_subseq(fixed_lit_lens(), fixed_dist_lens(), d, q, Seq::empty(), out, mine);
    } else {
        let (lit, dist, q2) = dynamic_spec(d, q)->Ok_0;
        lemma_codes_subseq(lit, dist, d, q2, Seq::empty(), out, mine);
    }
}

proof fn lemma_subseq_empty(b: Seq<u8>)
    ensures
        is_subsequence(Seq::empty(), b),
{
    reveal(is_subsequence);
}

#[verifier::rlimit(30)]
proof fn lemma_member_blocks_subseq(
    d: Seq<u8>,
    p: nat,
    blocks: Seq<CompressedBlockView>,
    total: nat,
    out: Seq<u8>,
    mine: Seq<u8>,
) -> (rest: Seq<u8>)
    requires
        member_blocks_spec(d, p, blocks, total) is Ok,
        inflate_member_blocks(d, p, out) is Some,
        is_subsequence(mine, out),
    ensures
        member_blocks_spec(d, p, blocks, total)->Ok_0.2 == inflate_member_blocks(d, p, out)->Some_0.1,
        all_literals(member_blocks_spec(d, p, blocks, total)->Ok_0.0) == all_literals(blocks) + rest,
        is_subsequence(mine + rest, inflate_member_blocks(d, p, out)->Some_0.0),
    decreases 8 * d.len() - p,
{
    let (lits, end, last, ulen) = block_spec(d, p)->Ok_0;
    lemma_block_subseq(d, p, out, mine);
    let o = inflate_block(d, p, out)->Some_0.0;
    let bs = blocks.push(deflate_block_view(p, end, ulen, lits));
    lemma_all_literals_push(blocks, deflate_block_view(p, end, ulen, lits));
    if last {
        lits
    } else {
        let rest2 = lemma_member_blocks_subseq(d, end, bs, total + lits.len(), o, mine + lits);
        assert(all_literals(blocks) + (lits + rest2) =~= all_literals(bs) + rest2);
        assert(mine + (lits + rest2) =~= (mine + lits) + rest2);
        lits + rest2
    }
}

#[verifier::rlimit(30)]
proof fn lemma_run_subseq(d: Seq<u8>, b: nat, blocks: Seq<CompressedBlockView>, total: nat, members: nat, out: Seq<u8>)
    requires
        gzip_run(d, b, blocks, total, members) is Ok,
        gzip_inflate_run(d, b, out) is Some,
        is_subsequence(all_literals(blocks), out),
    ensures
        is_subsequence(all_literals(gzip_run(d, b, blocks, total, members)->Ok_0), gzip_inflate_run(d, b, out)->Some_0),
    decreases d.len() - b,
{
    if b < d.len() {
        reveal(member_spec);
        let h = gzip_header_spec(d, b)->Ok_0;
        lemma_subseq_empty(Seq::empty());
        let rest = lemma_member_blocks_subseq(d, 8 * h, blocks, total, Seq::empty(), Seq::empty());
        let (bs, t, e) = member_blocks_spec(d, 8 * h, blocks, total)->Ok_0;
        let o = inflate_member_blocks(d, 8 * h, Seq::empty())->Some_0.0;
        assert(Seq::<u8>::empty() + rest =~= rest);
        lemma_subseq_concat(all_literals(blocks), out, rest, o);
        lemma_run_subseq(d, e, bs, t, members + 1, out + o);
    }
}

/// Extraction keeps the literals in the order the data has them: where a
/// gzip stream both extracts and decompresses, the extracted literals occur
/// in order within the decompressed data.
pub proof fn law_gzip_literals_are_a_subsequence_of_output(d: Seq<u8>)
    requires
        gzip_extract_spec(d) is Ok,
        gzip_inflate_spec(d) is Some,
    ensures
        is_subsequence(all_literals(gzip_extract_spec(d)->Ok_0), gzip_inflate_spec(d)->Some_0),
{
    lemma_subseq_empty(Seq::empty());
    assert(all_literals(Seq::<CompressedBlockView>::empty()) == Seq::<u8>::empty());
    lemma_run_subseq(d, 0, Seq::empty(), 0, 0, Seq::empty());
}

} // verus!
