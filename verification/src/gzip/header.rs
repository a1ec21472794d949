//! Gzip members (RFC 1952): the member header, the DEFLATE blocks, and the
//! 8-byte trailer.
use vstd::prelude::*;
use crate::block::{CompressedBlock, CompressedBlockView, blocks_view, all_literals, lemma_all_literals_push};
use crate::error::{ZiftError, ZiftErrorKind};
use super::bitstream::{BitReader, align_up};
use super::deflate::{block_spec, read_block};
use super::MAX_TOTAL_LITERALS;

verus! {

/// The first zero byte at or after `q`.
pub open spec fn find_zero(d: Seq<u8>, q: nat) -> Option<nat>
    decreases d.len() - q,
{
    if q >= d.len() {
        None
    } else if d[q as int] == 0 {
        Some(q)
    } else {
        find_zero(d, q + 1)
    }
}

/// Passes over the extra field at `q` when the FEXTRA flag is set: a 2-byte
/// length, then that many bytes.
pub open spec fn extra_field_spec(d: Seq<u8>, flg: u8, q: nat) -> Result<nat, ZiftErrorKind> {
    if (flg / 4) % 2 == 1 {
        if q + 2 > d.len() {
            Err(ZiftErrorKind::InvalidData { offset: q })
        } else {
            let x = d[q as int] as nat + 256 * d[q as int + 1] as nat;
            if q + 2 + x > d.len() {
                Err(ZiftErrorKind::InvalidData { offset: q })
            } else {
                Ok(q + 2 + x)
            }
        }
    } else {
        Ok(q)
    }
}

/// Passes over a zero-terminated string at `q` when `present`.
pub open spec fn zero_terminated_spec(d: Seq<u8>, present: bool, q: nat) -> Result<nat, ZiftErrorKind> {
    if present {
        match find_zero(d, q) {
            None => Err(ZiftErrorKind::InvalidData { offset: q }),
            Some(z) => Ok(z + 1),
        }
    } else {
        Ok(q)
    }
}

/// Where the gzip member header at byte `b` ends: the magic bytes
/// `1f 8b`, method 8 (deflate), no reserved flag set, then the fixed fields
/// and the optional extra field, name, comment and header CRC.
pub open spec fn gzip_header_spec(d: Seq<u8>, b: nat) -> Result<nat, ZiftErrorKind> {
    if b + 10 > d.len() {
        Err(ZiftErrorKind::InvalidData { offset: b })
    } else if d[b as int] != 0x1f || d[b as int + 1] != 0x8b {
        Err(ZiftErrorKind::InvalidData { offset: b })
    } else if d[b as int + 2] != 8 {
        Err(ZiftErrorKind::InvalidData { offset: b + 2 })
    } else {
        let flg = d[b as int + 3];
        if flg >= 32 {
            Err(ZiftErrorKind::InvalidData { offset: b + 3 })
        } else {
            match extra_field_spec(d, flg, b + 10) {
                Err(k) => Err(k),
                Ok(q1) => match zero_terminated_spec(d, (flg / 8) % 2 == 1, q1) {
                    Err(k) => Err(k),
                    Ok(q2) => match zero_terminated_spec(d, (flg / 16) % 2 == 1, q2) {
                        Err(k) => Err(k),
                        Ok(q3) => if (flg / 2) % 2 == 1 {
                            if q3 + 2 > d.len() {
                                Err(ZiftErrorKind::InvalidData { offset: q3 })
                            } else {
                                Ok(q3 + 2)
                            }
                        } else {
                            Ok(q3)
                        },
                    },
                },
            }
        }
    }
}

/// `x` as a `u32`, `u32::MAX` where it does not fit.
pub open spec fn sat_u32(x: nat) -> u32 {
    if x <= u32::MAX {
        x as u32
    } else {
        u32::MAX
    }
}

/// `x` as a `usize`, `usize::MAX` where it does not fit.
pub open spec fn sat_usize(x: nat) -> nat {
    if x <= usize::MAX {
        x
    } else {
        usize::MAX as nat
    }
}

/// The block that the DEFLATE block from bit `p` to bit `end` makes.
pub open spec fn deflate_block_view(p: nat, end: nat, ulen: Option<u32>, lits: Seq<u8>) -> CompressedBlockView {
    CompressedBlockView {
        offset: (p / 8) as u64,
        compressed_len: sat_u32((align_up(end) / 8 - p / 8) as nat),
        uncompressed_len: ulen,
        literals: lits,
    }
}

/// The DEFLATE blocks of a member from bit `p`, appended to `blocks`, with
/// `total` literals found before: the blocks, the new total, and where the
/// member ends (after the last block, the byte boundary and the 8-byte
/// trailer). The literals found may not pass the limit.
pub open spec fn member_blocks_spec(d: Seq<u8>, p: nat, blocks: Seq<CompressedBlockView>, total: nat) -> Result<
    (Seq<CompressedBlockView>, nat, nat),
    ZiftErrorKind,
>
    decreases 8 * d.len() - p,
{
    match block_spec(d, p) {
        Err(k) => Err(k),
        Ok((lits, end, last, ulen)) => if end <= p || end > 8 * d.len() {
            Err(ZiftErrorKind::InvalidData { offset: p / 8 })
        } else if total + lits.len() > MAX_TOTAL_LITERALS {
            Err(ZiftErrorKind::BlockTooLarge { size: sat_usize(total + lits.len()), max: MAX_TOTAL_LITERALS as nat })
        } else {
            let bs = blocks.push(deflate_block_view(p, end, ulen, lits));
            let t = total + lits.len();
            if last {
                let tr = align_up(end) / 8;
                if tr + 8 > d.len() {
                    Err(ZiftErrorKind::InvalidData { offset: tr })
                } else {
                    Ok((bs, t, tr + 8))
                }
            } else {
                member_blocks_spec(d, end, bs, t)
            }
        },
    }
}

/// The gzip member at byte `b`: its header, then its blocks.
#[verifier::opaque]
pub open spec fn member_spec(d: Seq<u8>, b: nat, blocks: Seq<CompressedBlockView>, total: nat) -> Result<
    (Seq<CompressedBlockView>, nat, nat),
    ZiftErrorKind,
> {
    match gzip_header_spec(d, b) {
        Err(k) => Err(k),
        Ok(h) => member_blocks_spec(d, 8 * h, blocks, total),
    }
}

/// Passes over a zero-terminated string.
fn skip_zero_terminated(br: &mut BitReader) -> (r: Result<(), ZiftError>)
    requires
        old(br).wf(),
        old(br).pos() % 8 == 0,
    ensures
        final(br).wf(),
        final(br).src() == old(br).src(),
        final(br).pos() % 8 == 0,
        match zero_terminated_spec(old(br).src(), true, old(br).pos() / 8) {
            Ok(q) => r is Ok && final(br).pos() == 8 * q,
            Err(k) => r matches Err(e) && e@ == k,
        },
        final(br).pos() >= old(br).pos(),
{
    let ghost d = br.src();
    let start = br.byte_offset();
    loop
        invariant
            br.wf(),
            br.src() == d,
            d == old(br).src(),
            br.pos() % 8 == 0,
            start == old(br).pos() / 8,
            start <= br.pos() / 8,
            br.pos() >= old(br).pos(),
            find_zero(d, br.pos() / 8) == find_zero(d, start as nat),
        decreases d.len() - br.pos() / 8,
    {
        proof {
            br.lemma_within();
        }
        let c = match br.take_bytes(1) {
            Some(c) => c,
            None => return Err(ZiftError::invalid(start, "unterminated gzip header string. Fix: use a complete gzip stream")),
        };
        if c[0] == 0 {
            return Ok(());
        }
    }
}

/// Reads the gzip member header at the reader's (byte-aligned) position.
fn read_gzip_header(br: &mut BitReader) -> (r: Result<(), ZiftError>)
    requires
        old(br).wf(),
        old(br).pos() % 8 == 0,
    ensures
        final(br).wf(),
        final(br).src() == old(br).src(),
        match gzip_header_spec(old(br).src(), old(br).pos() / 8) {
            Ok(h) => r is Ok && final(br).pos() == 8 * h,
            Err(k) => r matches Err(e) && e@ == k,
        },
        r is Ok ==> final(br).pos() > old(br).pos(),
{
    let b = br.byte_offset();
    proof {
        br.lemma_within();
    }
    let hdr = match br.take_bytes(10) {
        Some(h) => h,
        None => return Err(ZiftError::invalid(b, "truncated gzip header. Fix: provide a complete gzip member")),
    };
    if hdr[0] != 0x1f || hdr[1] != 0x8b {
        return Err(ZiftError::invalid(b, "invalid gzip magic bytes. Fix: provide gzip-compressed data"));
    }
    if hdr[2] != 8 {
        return Err(ZiftError::invalid(b + 2, "unsupported gzip compression method. Fix: use deflate-compressed gzip data"));
    }
    let flg = hdr[3];
    if flg >= 32 {
        return Err(ZiftError::invalid(b + 3, "reserved gzip header flags set. Fix: use a valid gzip stream"));
    }
    if (flg / 4) % 2 == 1 {
        let q = br.byte_offset();
        let x = match br.take_bytes(2) {
            Some(x) => x,
            None => return Err(ZiftError::invalid(q, "truncated gzip extra field. Fix: use a complete gzip stream")),
        };
        let xlen = x[0] as usize + 256 * (x[1] as usize);
        match br.take_bytes(xlen) {
            Some(_) => {},
            None => return Err(ZiftError::invalid(q, "truncated gzip extra field. Fix: use a complete gzip stream")),
        }
    }
    if (flg / 8) % 2 == 1 {
        match skip_zero_terminated(br) {
            Ok(_) => {},
            Err(e) => return Err(e),
        }
    }
    if (flg / 16) % 2 == 1 {
        match skip_zero_terminated(br) {
            Ok(_) => {},
            Err(e) => return Err(e),
        }
    }
    if (flg / 2) % 2 == 1 {
        let q = br.byte_offset();
        match br.take_bytes(2) {
            Some(_) => {},
            None => return Err(ZiftError::invalid(q, "truncated gzip header CRC. Fix: use a complete gzip stream")),
        }
    }
    Ok(())
}

fn to_u32_saturating(x: usize) -> (r: u32)
    ensures
        r == sat_u32(x as nat),
{
    if x <= 0xFFFF_FFFF {
        x as u32
    } else {
        u32::MAX
    }
}

/// Parses the gzip member at the reader's (byte-aligned) position: its
/// header, each DEFLATE block (one [`CompressedBlock`] per block, added to
/// `blocks`, its literals counted in `total_literals`), and its trailer.
pub fn parse_gzip_member(
    reader: &mut BitReader,
    blocks: &mut Vec<CompressedBlock>,
    total_literals: &mut usize,
) -> (r: Result<(), ZiftError>)
    requires
        old(reader).wf(),
        old(reader).pos() % 8 == 0,
        *old(total_literals) <= MAX_TOTAL_LITERALS,
    ensures
        final(reader).wf(),
        final(reader).src() == old(reader).src(),
        match member_spec(old(reader).src(), old(reader).pos() / 8, blocks_view(old(blocks)@), *old(total_literals) as nat) {
            Ok((bs, t, e)) => r is Ok && blocks_view(final(blocks)@) == bs && *final(total_literals) == t
                && final(reader).pos() == 8 * e,
            Err(k) => r matches Err(e) && e@ == k,
        },
        r is Ok ==> final(reader).pos() > old(reader).pos() && final(reader).pos() % 8 == 0
            && *final(total_literals) <= MAX_TOTAL_LITERALS,
{
    let ghost d = reader.src();
    let ghost whole = member_spec(d, reader.pos() / 8, blocks_view(blocks@), *total_literals as nat);
    match read_gzip_header(reader) {
        Ok(_) => {},
        Err(e) => {
            assert(whole == Err::<(Seq<CompressedBlockView>, nat, nat), ZiftErrorKind>(e@)) by {
                reveal(member_spec);
            }
            return Err(e);
        },
    }
    let ghost goal = member_blocks_spec(d, reader.pos(), blocks_view(blocks@), *total_literals as nat);
    assert(goal == whole) by {
        reveal(member_spec);
    }
    loop
        invariant
            reader.wf(),
            reader.src() == d,
            d == old(reader).src(),
            *total_literals <= MAX_TOTAL_LITERALS,
            reader.pos() > old(reader).pos(),
            goal == member_spec(d, old(reader).pos() / 8, blocks_view(old(blocks)@), *old(total_literals) as nat),
            member_blocks_spec(d, reader.pos(), blocks_view(blocks@), *total_literals as nat) == goal,
        decreases 8 * d.len() - reader.pos(),
    {
        let ghost p = reader.pos();
        let start = reader.byte_offset();
        let (literals, last, ulen) = match read_block(reader) {
            Ok(x) => x,
            Err(e) => return Err(e),
        };
        if literals.len() > MAX_TOTAL_LITERALS - *total_literals {
            return Err(ZiftError::too_large((*total_literals).saturating_add(literals.len()), MAX_TOTAL_LITERALS));
        }
        let end = reader.end_byte();
        let mut block = CompressedBlock::new(start as u64, to_u32_saturating(end - start));
        block.uncompressed_len = ulen;
        *total_literals = *total_literals + literals.len();
        block.literals = literals;
        let ghost old_view = blocks_view(blocks@);
        blocks.push(block);
        assert(blocks_view(blocks@) =~= old_view.push(block@));
        if last {
            reader.align();
            let tr = reader.byte_offset();
            match reader.take_bytes(8) {
                Some(_) => {},
                None => return Err(ZiftError::invalid(tr, "truncated gzip trailer. Fix: use a complete gzip stream")),
            }
            return Ok(());
        }
    }
}

/// A member that parses adds to the running total exactly the literals of
/// the blocks it adds, and the total stays within the limit.
pub proof fn lemma_member_total(d: Seq<u8>, b: nat, blocks: Seq<CompressedBlockView>, total: nat)
    requires
        member_spec(d, b, blocks, total) is Ok,
        total == all_literals(blocks).len(),
    ensures
        member_spec(d, b, blocks, total)->Ok_0.1 == all_literals(member_spec(d, b, blocks, total)->Ok_0.0).len(),
        member_spec(d, b, blocks, total)->Ok_0.1 <= MAX_TOTAL_LITERALS,
{
    reveal(member_spec);
    let h = gzip_header_spec(d, b)->Ok_0;
    lemma_member_blocks_total(d, 8 * h, blocks, total);
}

proof fn lemma_member_blocks_total(d: Seq<u8>, p: nat, blocks: Seq<CompressedBlockView>, total: nat)
    requires
        member_blocks_spec(d, p, blocks, total) is Ok,
        total == all_literals(blocks).len(),
    ensures
        member_blocks_spec(d, p, blocks, total)->Ok_0.1 == all_literals(member_blocks_spec(d, p, blocks, total)->Ok_0.0).len(),
        member_blocks_spec(d, p, blocks, total)->Ok_0.1 <= MAX_TOTAL_LITERALS,
    decreases 8 * d.len() - p,
{
    let (lits, end, last, ulen) = block_spec(d, p)->Ok_0;
    lemma_all_literals_push(blocks, deflate_block_view(p, end, ulen, lits));
    if !last {
        lemma_member_blocks_total(d, end, blocks.push(deflate_block_view(p, end, ulen, lits)), total + lits.len());
    }
}


/// A string with no zero byte, then a zero: `find_zero` from its start lands
/// on the terminator.
proof fn lemma_find_zero_after(d: Seq<u8>, q: nat, s: Seq<u8>)
    requires
        q + s.len() < d.len(),
        forall|i: int| 0 <= i < s.len() ==> #[trigger] s[i] != 0 && d[q + i] == s[i],
        d[(q + s.len()) as int] == 0,
    ensures
        find_zero(d, q) == Some(q + s.len()),
    decreases s.len(),
{
    if s.len() > 0 {
        assert(d[q as int] == s[0]);
        let t = s.subrange(1, s.len() as int);
        assert forall|i: int| 0 <= i < t.len() implies #[trigger] t[i] != 0 && d[(q + 1) + i] == t[i] by {
            assert(t[i] == s[i + 1]);
        }
        lemma_find_zero_after(d, q + 1, t);
    }
}

/// The flag byte of a member header with the given optional fields
/// (RFC 1952: FTEXT is bit 0, FHCRC bit 1, FEXTRA bit 2, FNAME bit 3,
/// FCOMMENT bit 4).
pub open spec fn header_flags(ftext: bool, fhcrc: bool, fextra: bool, fname: bool, fcomment: bool) -> u8 {
    ((if ftext { 1nat } else { 0 }) + (if fhcrc { 2nat } else { 0 }) + (if fextra { 4nat } else { 0 }) + (
    if fname { 8nat } else { 0 }) + (if fcomment { 16nat } else { 0 })) as u8
}

/// Each flag of the header flag byte reads back as the field it marks.
proof fn lemma_header_flag_bits(ftext: bool, fhcrc: bool, fextra: bool, fname: bool, fcomment: bool)
    ensures
        ({
            let flg = header_flags(ftext, fhcrc, fextra, fname, fcomment);
            &&& flg < 32
            &&& ((flg / 2) % 2 == 1) == fhcrc
            &&& ((flg / 4) % 2 == 1) == fextra
            &&& ((flg / 8) % 2 == 1) == fname
            &&& ((flg / 16) % 2 == 1) == fcomment
        }),
{
}

/// The optional fields of a gzip member header: which are present, and
/// their contents.
pub struct HeaderFields {
    pub ftext: bool,
    pub fhcrc: bool,
    pub fextra: bool,
    pub fname: bool,
    pub fcomment: bool,
    pub extra: Seq<u8>,
    pub name: Seq<u8>,
    pub comment: Seq<u8>,
    pub crc: Seq<u8>,
}

/// A gzip member header as RFC 1952 lays it out: `1f 8b 08`, the flag byte,
/// six bytes of time, extra flags and system, then where their flags are
/// set: the extra field (its 2-byte little-endian length, then its bytes),
/// the file name and the comment (each ended by a zero), and the 2-byte
/// header CRC.
pub open spec fn rfc1952_header(h: HeaderFields, fixed: Seq<u8>) -> Seq<u8> {
    let x = h.extra.len();
    seq![0x1fu8, 0x8bu8, 8u8, header_flags(h.ftext, h.fhcrc, h.fextra, h.fname, h.fcomment)] + fixed + (if h.fextra {
        seq![(x % 256) as u8, (x / 256) as u8] + h.extra
    } else {
        Seq::empty()
    }) + (if h.fname {
        h.name.push(0)
    } else {
        Seq::empty()
    }) + (if h.fcomment {
        h.comment.push(0)
    } else {
        Seq::empty()
    }) + (if h.fhcrc {
        h.crc
    } else {
        Seq::empty()
    })
}

/// The member header ends exactly where RFC 1952 puts its end: after the
/// fixed fields, the extra field when FEXTRA is set, the zero-terminated
/// name when FNAME is set, the zero-terminated comment when FCOMMENT is set,
/// and the header CRC when FHCRC is set, whatever follows.
#[verifier::rlimit(40)]
pub proof fn law_gzip_header_ends_where_rfc1952_puts_it(h: HeaderFields, fixed: Seq<u8>, rest: Seq<u8>)
    requires
        fixed.len() == 6,
        h.crc.len() == 2,
        h.extra.len() < 65536,
        forall|i: int| 0 <= i < h.name.len() ==> #[trigger] h.name[i] != 0,
        forall|i: int| 0 <= i < h.comment.len() ==> #[trigger] h.comment[i] != 0,
    ensures
        gzip_header_spec(rfc1952_header(h, fixed) + rest, 0) == Ok::<nat, ZiftErrorKind>(rfc1952_header(h, fixed).len()),
{
    let hd = rfc1952_header(h, fixed);
    let d = hd + rest;
    let flg = header_flags(h.ftext, h.fhcrc, h.fextra, h.fname, h.fcomment);
    let x = h.extra.len();
    let xp: Seq<u8> = if h.fextra { seq![(x % 256) as u8, (x / 256) as u8] + h.extra } else { Seq::empty() };
    let np: Seq<u8> = if h.fname { h.name.push(0) } else { Seq::empty() };
    let cp: Seq<u8> = if h.fcomment { h.comment.push(0) } else { Seq::empty() };
    let hp: Seq<u8> = if h.fhcrc { h.crc } else { Seq::empty() };
    let q1: nat = 10 + xp.len();
    let q2: nat = q1 + np.len();
    let q3: nat = q2 + cp.len();
    assert(hd =~= seq![0x1fu8, 0x8bu8, 8u8, flg] + fixed + xp + np + cp + hp);
    assert(hd.len() == q3 + hp.len());
    assert(d[0] == 0x1f && d[1] == 0x8b && d[2] == 8 && d[3] == flg) by {
        assert(d[0] == hd[0] && d[1] == hd[1] && d[2] == hd[2] && d[3] == hd[3]);
    }
    lemma_header_flag_bits(h.ftext, h.fhcrc, h.fextra, h.fname, h.fcomment);
    if h.fextra {
        assert(d[10] == hd[10] && d[11] == hd[11]);
        assert(d[10] as nat + 256 * d[11] as nat == x);
    }
    assert(extra_field_spec(d, flg, 10) == Ok::<nat, ZiftErrorKind>(q1));
    if h.fname {
        assert forall|i: int| 0 <= i < h.name.len() implies #[trigger] h.name[i] != 0 && d[q1 + i] == h.name[i] by {
            assert(d[q1 + i] == hd[q1 + i]);
        }
        assert(d[(q1 + h.name.len()) as int] == hd[(q1 + h.name.len()) as int]);
        lemma_find_zero_after(d, q1, h.name);
    }
    if h.fcomment {
        assert forall|i: int| 0 <= i < h.comment.len() implies #[trigger] h.comment[i] != 0 && d[q2 + i] == h.comment[i] by {
            assert(d[q2 + i] == hd[q2 + i]);
        }
        assert(d[(q2 + h.comment.len()) as int] == hd[(q2 + h.comment.len()) as int]);
        lemma_find_zero_after(d, q2, h.comment);
    }
    assert(zero_terminated_spec(d, h.fname, q1) == Ok::<nat, ZiftErrorKind>(q2));
    assert(zero_terminated_spec(d, h.fcomment, q2) == Ok::<nat, ZiftErrorKind>(q3));
}

} // verus!
