//! Literal extraction over whole Zstd streams.
//!
//! Each frame is a header, then blocks: a 3-byte little-endian header whose
//! bit 0 marks the last block, bits 1-2 give the type and the rest the size,
//! then the block's content. Raw blocks are literals as they stand, an RLE
//! block is one byte repeated, and a compressed block's literals section is
//! decoded. A frame may end with a 4-byte checksum.
use vstd::prelude::*;
use crate::block::{CompressedBlock, CompressedBlockView, blocks_view, all_literals, lemma_all_literals_push};
use crate::error::{ZiftError, ZiftErrorKind};
use super::frame::{frame_header_spec, le_value, read_frame_header, read_le};
use super::decoder::{literals_section_spec, extract_literals_from_block};

verus! {

/// The largest block a Zstd frame may hold (128 KiB).
pub const MAX_BLOCK_SIZE: usize = 131072;

/// Maximum total literals (256MB).
pub const MAX_TOTAL_LITERALS: usize = 0x1000_0000;

/// `x` as a `u32`, `u32::MAX` where it does not fit.
pub open spec fn sat_u32(x: nat) -> u32 {
    if x <= u32::MAX {
        x as u32
    } else {
        u32::MAX
    }
}

/// Where a scan of a Zstd stream stands: its position, whether it is inside
/// a frame (and then whether that frame ends with a checksum), the literals
/// found so far and the blocks so far.
pub struct ZstdScan {
    pub pos: nat,
    pub frame: Option<bool>,
    pub total: nat,
    pub blocks: Seq<CompressedBlockView>,
}

/// Moves an error of a block's literals section to the block's place in
/// the stream.
pub open spec fn shift_error(k: ZiftErrorKind, start: nat) -> ZiftErrorKind {
    match k {
        ZiftErrorKind::InvalidData { offset } => ZiftErrorKind::InvalidData { offset: offset + start },
        other => other,
    }
}

/// The literals of the block whose content starts at `start`, and where
/// the block's content ends.
pub open spec fn block_content_spec(data: Seq<u8>, btype: nat, size: nat, start: nat) -> Result<(Seq<u8>, nat), ZiftErrorKind> {
    if btype == 1 {
        if start + 1 > data.len() {
            Err(ZiftErrorKind::InvalidData { offset: start })
        } else {
            Ok((Seq::new(size, |i: int| data[start as int]), start + 1))
        }
    } else if start + size > data.len() {
        Err(ZiftErrorKind::InvalidData { offset: start })
    } else {
        let content = data.subrange(start as int, (start + size) as int);
        if btype == 0 {
            Ok((content, start + size))
        } else {
            match literals_section_spec(content) {
                Err(k) => Err(shift_error(k, start)),
                Ok(l) => Ok((l, start + size)),
            }
        }
    }
}

/// The block whose header is at `p`, in a frame that ends with a checksum
/// when `ck` holds, after `total` literals: the block, where the scan goes
/// on, and whether it was the frame's last block. The size must be at most
/// 128 KiB, the literals found must stay within the limit, and after the
/// last block the checksum, if any, is passed over.
pub open spec fn block_step(data: Seq<u8>, p: nat, ck: bool, total: nat) -> Result<(CompressedBlockView, nat, bool), ZiftErrorKind> {
    if p + 3 > data.len() {
        Err(ZiftErrorKind::InvalidData { offset: p })
    } else {
        let h = le_value(data, p as int, 3);
        let last = h % 2 == 1;
        let btype = (h / 2) % 4;
        let size = h / 8;
        let start = p + 3;
        if btype == 3 {
            Err(ZiftErrorKind::InvalidData { offset: p })
        } else if size > MAX_BLOCK_SIZE {
            Err(ZiftErrorKind::BlockTooLarge { size, max: MAX_BLOCK_SIZE as nat })
        } else {
            match block_content_spec(data, btype, size, start) {
                Err(k) => Err(k),
                Ok((lits, end)) => if total + lits.len() > MAX_TOTAL_LITERALS {
                    Err(ZiftErrorKind::BlockTooLarge { size: total + lits.len(), max: MAX_TOTAL_LITERALS as nat })
                } else if last && ck && end + 4 > data.len() {
                    Err(ZiftErrorKind::InvalidData { offset: end })
                } else {
                    Ok(
                        (
                            CompressedBlockView {
                                offset: p as u64,
                                compressed_len: sat_u32((end - p) as nat),
                                uncompressed_len: if btype == 2 {
                                    None
                                } else {
                                    Some(size as u32)
                                },
                                literals: lits,
                            },
                            if last && ck {
                                end + 4
                            } else {
                                end
                            },
                            last,
                        ),
                    )
                },
            }
        }
    }
}

/// The scan from `s` to the end of `data`. Outside a frame, the next frame
/// header is read (the scan ends where only skippable frames remain);
/// inside one, the next block is read.
pub open spec fn zstd_run(data: Seq<u8>, s: ZstdScan) -> Result<Seq<CompressedBlockView>, ZiftErrorKind>
    decreases data.len() - s.pos,
{
    match s.frame {
        None => if s.pos >= data.len() {
            Ok(s.blocks)
        } else {
            match frame_header_spec(data, s.pos) {
                Err(k) => Err(k),
                Ok((None, _)) => Ok(s.blocks),
                Ok((Some(ck), next)) => if next <= s.pos || next > data.len() {
                    Err(ZiftErrorKind::InvalidData { offset: s.pos })
                } else {
                    zstd_run(data, ZstdScan { pos: next, frame: Some(ck), total: s.total, blocks: s.blocks })
                },
            }
        },
        Some(ck) => match block_step(data, s.pos, ck, s.total) {
            Err(k) => Err(k),
            Ok((b, next, last)) => if next <= s.pos || next > data.len() {
                Err(ZiftErrorKind::InvalidData { offset: s.pos })
            } else {
                zstd_run(
                    data,
                    ZstdScan {
                        pos: next,
                        frame: if last {
                            None
                        } else {
                            Some(ck)
                        },
                        total: s.total + b.literals.len(),
                        blocks: s.blocks.push(b),
                    },
                )
            },
        },
    }
}

/// What extracting the literals of a Zstd stream gives: empty input is
/// refused; otherwise the scan runs from the start, outside any frame.
pub open spec fn zstd_extract_spec(data: Seq<u8>) -> Result<Seq<CompressedBlockView>, ZiftErrorKind> {
    if data.len() == 0 {
        Err(ZiftErrorKind::InvalidData { offset: 0 })
    } else {
        zstd_run(data, ZstdScan { pos: 0, frame: None, total: 0, blocks: Seq::empty() })
    }
}

proof fn lemma_frame_header_advances(data: Seq<u8>, pos: nat)
    requires
        frame_header_spec(data, pos) is Ok,
    ensures
        frame_header_spec(data, pos)->Ok_0.1 > pos,
        frame_header_spec(data, pos)->Ok_0.1 <= data.len(),
    decreases data.len() - pos,
{
    let magic = le_value(data, pos as int, 4);
    if super::frame::is_skippable_magic(magic) {
        let next = pos + 8 + le_value(data, pos as int + 4, 4);
        if next < data.len() {
            lemma_frame_header_advances(data, next);
        }
    }
}

fn to_u32_saturating(x: usize) -> (r: u32)
    ensures
        r == sat_u32(x as nat),
{
    if x <= 0xFFFF_FFFF {
        x as u32
    } else {
        u32::MAX
    }
}

/// Reads the content of the block that starts at `start`.
fn read_block_content(data: &[u8], btype: usize, size: usize, start: usize) -> (r: Result<(Vec<u8>, usize), ZiftError>)
    requires
        btype <= 2,
        size <= MAX_BLOCK_SIZE,
        start <= data@.len(),
    ensures
        match block_content_spec(data@, btype as nat, size as nat, start as nat) {
            Ok((l, end)) => r matches Ok((v, e)) && v@ == l && e == end,
            Err(k) => r matches Err(e) && e@ == k,
        },
        r matches Ok((v, e)) ==> v@.len() <= 0x10_0000 && start <= e <= data@.len(),
{
    if btype == 1 {
        if start >= data.len() {
            return Err(ZiftError::invalid(start, "truncated zstd RLE block. Fix: use a complete Zstd stream"));
        }
        let byte = data[start];
        let mut out: Vec<u8> = Vec::with_capacity(size);
        let mut i: usize = 0;
        while i < size
            invariant
                i <= size,
                out@.len() == i,
                forall|j: int| 0 <= j < i ==> #[trigger] out@[j] == byte,
            decreases size - i,
        {
            out.push(byte);
            i = i + 1;
        }
        assert(out@ =~= Seq::new(size as nat, |j: int| data@[start as int]));
        return Ok((out, start + 1));
    }
    if size > data.len() - start {
        return Err(ZiftError::invalid(start, "zstd block exceeds data bounds. Fix: use a complete Zstd stream"));
    }
    let content = &data[start..start + size];
    if btype == 0 {
        let mut out: Vec<u8> = Vec::with_capacity(size);
        out.extend_from_slice(content);
        assert(out@ =~= content@);
        return Ok((out, start + size));
    }
    proof {
        super::decoder::lemma_section_bounds(content@);
    }
    match extract_literals_from_block(content) {
        Ok(l) => Ok((l, start + size)),
        Err(e) => {
            proof {
                super::decoder::lemma_section_bounds(content@);
            }
            match e {
                ZiftError::InvalidData { offset, reason } => Err(ZiftError::InvalidData { offset: offset + start, reason }),
                other => Err(other),
            }
        },
    }
}

/// Reads the block whose header is at `pos`.
fn read_block(data: &[u8], pos: usize, ck: bool, total: usize) -> (r: Result<(CompressedBlock, usize, bool), ZiftError>)
    requires
        pos <= data@.len(),
        total <= MAX_TOTAL_LITERALS,
    ensures
        match block_step(data@, pos as nat, ck, total as nat) {
            Ok((b, next, last)) => r matches Ok((blk, n, l)) && blk@ == b && n == next && l == last,
            Err(k) => r matches Err(e) && e@ == k,
        },
        r matches Ok((blk, n, l)) ==> pos < n <= data@.len() && total + blk.literals@.len() <= MAX_TOTAL_LITERALS,
{
    if data.len() - pos < 3 {
        return Err(ZiftError::invalid(pos, "truncated zstd block header. Fix: use a complete Zstd stream"));
    }
    let h = read_le(data, pos, 3);
    let last = h % 2 == 1;
    let btype = ((h / 2) % 4) as usize;
    proof {
        super::frame::lemma_le_value_bound(data@, pos as int, 3);
        vstd::arithmetic::power2::lemma2_to64();
    }
    let size = (h / 8) as usize;
    if btype == 3 {
        return Err(ZiftError::invalid(pos, "reserved zstd block type. Fix: use a valid Zstd stream"));
    }
    if size > MAX_BLOCK_SIZE {
        return Err(ZiftError::too_large(size, MAX_BLOCK_SIZE));
    }
    let (lits, end) = match read_block_content(data, btype, size, pos + 3) {
        Ok(x) => x,
        Err(e) => return Err(e),
    };
    if total + lits.len() > MAX_TOTAL_LITERALS {
        return Err(ZiftError::too_large(total + lits.len(), MAX_TOTAL_LITERALS));
    }
    if last && ck && data.len() - end < 4 {
        return Err(ZiftError::invalid(end, "truncated zstd frame checksum. Fix: use a complete Zstd stream"));
    }
    let mut block = CompressedBlock::new(pos as u64, to_u32_saturating(end - pos));
    block.uncompressed_len = if btype == 2 {
        None
    } else {
        Some(size as u32)
    };
    block.literals = lits;
    let next = if last && ck {
        end + 4
    } else {
        end
    };
    Ok((block, next, last))
}

/// Extracts the literals of every block of a Zstd stream, one
/// [`CompressedBlock`] per block.
///
/// # Errors
///
/// Returns [`ZiftError::InvalidData`] if a frame or block is truncated or
/// malformed, or [`ZiftError::BlockTooLarge`] if a limit is exceeded.
pub fn extract_literals(data: &[u8]) -> (r: Result<Vec<CompressedBlock>, ZiftError>)
    ensures
        match zstd_extract_spec(data@) {
            Ok(bs) => r matches Ok(v) && blocks_view(v@) == bs,
            Err(k) => r matches Err(e) && e@ == k,
        },
{
    if data.len() == 0 {
        return Err(ZiftError::invalid(0, "empty zstd input. Fix: provide non-empty Zstd data"));
    }
    let ghost d = data@;
    let mut blocks: Vec<CompressedBlock> = Vec::new();
    let mut pos: usize = 0;
    let mut frame: Option<bool> = None;
    let mut total: usize = 0;
    assert(blocks_view(blocks@) =~= Seq::<CompressedBlockView>::empty());
    loop
        invariant
            d == data@,
            d.len() > 0,
            pos <= d.len(),
            total <= MAX_TOTAL_LITERALS,
            zstd_run(d, ZstdScan { pos: pos as nat, frame, total: total as nat, blocks: blocks_view(blocks@) })
                == zstd_extract_spec(d),
        decreases d.len() - pos,
    {
        match frame {
            None => {
                if pos >= data.len() {
                    return Ok(blocks);
                }
                let ghost old_pos = pos;
                match read_frame_header(data, &mut pos) {
                    Err(e) => return Err(e),
                    Ok(None) => return Ok(blocks),
                    Ok(Some(ck)) => {
                        proof {
                            lemma_frame_header_advances(d, old_pos as nat);
                        }
                        frame = Some(ck);
                    },
                }
            },
            Some(ck) => {
                let (block, next, last) = match read_block(data, pos, ck, total) {
                    Ok(x) => x,
                    Err(e) => return Err(e),
                };
                total = total + block.literals.len();
                let ghost old_view = blocks_view(blocks@);
                blocks.push(block);
                assert(blocks_view(blocks@) =~= old_view.push(block@));
                pos = next;
                frame = if last {
                    None
                } else {
                    Some(ck)
                };
            },
        }
    }
}

proof fn lemma_zstd_run_total(data: Seq<u8>, s: ZstdScan)
    requires
        zstd_run(data, s) is Ok,
        s.total == all_literals(s.blocks).len(),
        s.total <= MAX_TOTAL_LITERALS,
    ensures
        all_literals(zstd_run(data, s)->Ok_0).len() <= MAX_TOTAL_LITERALS,
    decreases data.len() - s.pos,
{
    match s.frame {
        None => {
            if s.pos < data.len() {
                match frame_header_spec(data, s.pos) {
                    Ok((Some(ck), next)) => {
                        lemma_zstd_run_total(data, ZstdScan { pos: next, frame: Some(ck), total: s.total, blocks: s.blocks });
                    },
                    _ => {},
                }
            }
        },
        Some(ck) => {
            let (b, next, last) = block_step(data, s.pos, ck, s.total)->Ok_0;
            lemma_all_literals_push(s.blocks, b);
            lemma_zstd_run_total(
                data,
                ZstdScan {
                    pos: next,
                    frame: if last {
                        None
                    } else {
                        Some(ck)
                    },
                    total: s.total + b.literals.len(),
                    blocks: s.blocks.push(b),
                },
            );
        },
    }
}

/// The literals that extraction from a Zstd stream gives, over all its
/// blocks, stay within the literal limit.
pub proof fn law_zstd_literal_limit(data: Seq<u8>)
    requires
        zstd_extract_spec(data) is Ok,
    ensures
        all_literals(zstd_extract_spec(data)->Ok_0).len() <= MAX_TOTAL_LITERALS,
{
    lemma_zstd_run_total(data, ZstdScan { pos: 0, frame: None, total: 0, blocks: Seq::empty() });
}


/// A Zstd frame of one block: the magic number `28 b5 2f fd`, a
/// single-segment frame descriptor (`0x20`, with bit 2, `0x24`, where the frame
/// carries a content checksum), a 1-byte content size `fcs`, the 3-byte
/// little-endian header of a last block of type `btype` and size `size`
/// (bit 0 set, the type in bits 1-2, the size in the bits above), the
/// block's `content`, and the 4-byte checksum `ck` where one is carried.
pub open spec fn one_block_frame(checksum: bool, fcs: u8, btype: nat, size: nat, content: Seq<u8>, ck: Seq<u8>) -> Seq<u8> {
    let h = 1 + 2 * btype + 8 * size;
    seq![
        0x28u8,
        0xb5u8,
        0x2fu8,
        0xfdu8,
        if checksum { 0x24u8 } else { 0x20u8 },
        fcs,
        (h % 256) as u8,
        ((h / 256) % 256) as u8,
        (h / 65536) as u8,
    ] + content + if checksum {
        ck
    } else {
        Seq::empty()
    }
}

/// A Zstd frame of one raw block holding `lits`.
pub open spec fn one_raw_block_frame(checksum: bool, fcs: u8, lits: Seq<u8>, ck: Seq<u8>) -> Seq<u8> {
    one_block_frame(checksum, fcs, 0, lits.len(), lits, ck)
}

/// The magic number and a single-segment descriptor with no dictionary
/// identifier at `p` open a frame whose blocks start at `p + 6`.
proof fn lemma_single_segment_header(d: Seq<u8>, p: nat, checksum: bool)
    requires
        p + 9 <= d.len(),
        d[p as int] == 0x28 && d[p as int + 1] == 0xb5 && d[p as int + 2] == 0x2f && d[p as int + 3] == 0xfd,
        d[p as int + 4] == if checksum { 0x24u8 } else { 0x20u8 },
    ensures
        frame_header_spec(d, p) == Ok::<(Option<bool>, nat), ZiftErrorKind>((Some(checksum), p + 6)),
{
    let q = p as int;
    assert(le_value(d, q + 3, 1) == 0xfd) by {
        assert(le_value(d, q + 4, 0) == 0);
    }
    assert(le_value(d, q, 4) == 0xFD2F_B528) by {
        assert(le_value(d, q + 2, 2) == 0x2f + 256 * 0xfd);
        assert(le_value(d, q + 1, 3) == 0xb5 + 256 * (0x2f + 256 * 0xfd));
    }
}

/// A Zstd frame header ends where RFC 8878 puts its end: after the 4-byte
/// magic number, the descriptor byte, a window byte unless the frame is
/// single-segment (bit 5), the dictionary identifier of 0, 1, 2 or 4 bytes
/// (bits 0-1), and the content size of 0 or 1 (single-segment), 2, 4 or 8
/// bytes (bits 6-7); and it says whether the frame ends with a checksum
/// (bit 2). The reserved bit 3 must be clear.
pub proof fn law_zstd_frame_header_ends_where_rfc8878_puts_it(fhd: u8, fields: Seq<u8>, rest: Seq<u8>)
    requires
        (fhd / 8) % 2 == 0,
        fields.len() == (if (fhd / 32) % 2 == 1 { 0nat } else { 1 }) + (if fhd % 4 == 3 {
            4nat
        } else {
            (fhd % 4) as nat
        }) + (if fhd / 64 == 0 {
            if (fhd / 32) % 2 == 1 { 1nat } else { 0 }
        } else if fhd / 64 == 1 {
            2nat
        } else if fhd / 64 == 2 {
            4nat
        } else {
            8nat
        }),
    ensures
        frame_header_spec(seq![0x28u8, 0xb5u8, 0x2fu8, 0xfdu8, fhd] + fields + rest, 0) == Ok::<
            (Option<bool>, nat),
            ZiftErrorKind,
        >((Some((fhd / 4) % 2 == 1), 5 + fields.len())),
{
    let d = seq![0x28u8, 0xb5u8, 0x2fu8, 0xfdu8, fhd] + fields + rest;
    assert(d[0] == 0x28 && d[1] == 0xb5 && d[2] == 0x2f && d[3] == 0xfd && d[4] == fhd);
    assert(le_value(d, 3, 1) == 0xfd) by {
        assert(le_value(d, 4, 0) == 0);
    }
    assert(le_value(d, 0, 4) == 0xFD2F_B528) by {
        assert(le_value(d, 2, 2) == 0x2f + 256 * 0xfd);
        assert(le_value(d, 1, 3) == 0xb5 + 256 * (0x2f + 256 * 0xfd));
    }
}

/// Three bytes written little-endian read back as the number they write.
proof fn lemma_le_three(d: Seq<u8>, p: int, h: nat)
    requires
        0 <= p,
        p + 3 <= d.len(),
        h < 0x100_0000,
        d[p] == (h % 256) as u8,
        d[p + 1] == ((h / 256) % 256) as u8,
        d[p + 2] == (h / 65536) as u8,
    ensures
        le_value(d, p, 3) == h,
{
    assert(le_value(d, p + 3, 0) == 0);
    assert(le_value(d, p + 2, 1) == h / 65536);
    assert(le_value(d, p + 1, 2) == (h / 256) % 256 + 256 * (h / 65536));
}

/// The literals a raw (`btype` 0) or RLE (`btype` 1) block of `size` with
/// `content` holds: the content itself, or its one byte `size` times.
pub open spec fn plain_block_literals(btype: nat, size: nat, content: Seq<u8>) -> Seq<u8> {
    if btype == 0 {
        content
    } else {
        Seq::new(size, |i: int| content[0])
    }
}

/// The last raw or RLE block whose header is at `b`, followed by a checksum
/// where the frame carries one.
proof fn lemma_last_plain_block(d: Seq<u8>, b: nat, checksum: bool, btype: nat, size: nat, content: Seq<u8>, end: nat, total: nat)
    requires
        btype <= 1,
        size <= MAX_BLOCK_SIZE,
        btype == 0 ==> content.len() == size,
        btype == 1 ==> content.len() == 1,
        total + size <= MAX_TOTAL_LITERALS,
        end == b + 3 + content.len() + if checksum { 4nat } else { 0 },
        end <= d.len(),
        le_value(d, b as int, 3) == 1 + 2 * btype + 8 * size,
        d.subrange(b as int + 3, b as int + 3 + content.len()) == content,
    ensures
        block_step(d, b, checksum, total) == Ok::<(CompressedBlockView, nat, bool), ZiftErrorKind>(
            (
                CompressedBlockView {
                    offset: b as u64,
                    compressed_len: (3 + content.len()) as u32,
                    uncompressed_len: Some(size as u32),
                    literals: plain_block_literals(btype, size, content),
                },
                end,
                true,
            ),
        ),
{
    let h = 1 + 2 * btype + 8 * size;
    assert(h % 2 == 1 && (h / 2) % 4 == btype && h / 8 == size);
    if btype == 1 {
        assert(d[b as int + 3] == content[0]);
        assert(Seq::new(size, |i: int| d[b as int + 3]) =~= Seq::new(size, |i: int| content[0]));
    }
    assert(block_content_spec(d, btype, size, b + 3) == Ok::<(Seq<u8>, nat), ZiftErrorKind>(
        (plain_block_literals(btype, size, content), b + 3 + content.len()),
    ));
}

/// Wherever a frame of one raw or RLE block stands in a stream, the scan
/// reads that block's literals (the raw bytes, or the RLE byte `size` times)
/// and goes on exactly where the frame ends, after its checksum where it
/// carries one, whatever came before and follows.
#[verifier::rlimit(60)]
pub proof fn law_zstd_plain_block_frame_step(
    pre: Seq<u8>,
    checksum: bool,
    fcs: u8,
    btype: nat,
    size: nat,
    content: Seq<u8>,
    ck: Seq<u8>,
    rest: Seq<u8>,
    total: nat,
    blocks: Seq<CompressedBlockView>,
)
    requires
        btype <= 1,
        size <= MAX_BLOCK_SIZE,
        btype == 0 ==> content.len() == size,
        btype == 1 ==> content.len() == 1,
        total + size <= MAX_TOTAL_LITERALS,
        ck.len() == 4,
    ensures
        ({
            let f = one_block_frame(checksum, fcs, btype, size, content, ck);
            let d = pre + f + rest;
            let b = CompressedBlockView {
                offset: (pre.len() + 6) as u64,
                compressed_len: (3 + content.len()) as u32,
                uncompressed_len: Some(size as u32),
                literals: plain_block_literals(btype, size, content),
            };
            zstd_run(d, ZstdScan { pos: pre.len(), frame: None, total, blocks }) == zstd_run(
                d,
                ZstdScan { pos: pre.len() + f.len(), frame: None, total: total + size, blocks: blocks.push(b) },
            )
        }),
{
    let p = pre.len();
    let q = p as int;
    let f = one_block_frame(checksum, fcs, btype, size, content, ck);
    let d = pre + f + rest;
    let h = 1 + 2 * btype + 8 * size;
    let ckp: Seq<u8> = if checksum { ck } else { Seq::empty() };
    let fhd: u8 = if checksum { 0x24u8 } else { 0x20u8 };
    let head = seq![0x28u8, 0xb5u8, 0x2fu8, 0xfdu8, fhd, fcs, (h % 256) as u8, ((h / 256) % 256) as u8, (h / 65536) as u8];
    assert(f =~= head + content + ckp);
    let end: nat = p + 9 + content.len() + if checksum { 4nat } else { 0 };
    assert(p + f.len() == end);
    assert(d.len() == end + rest.len());
    assert forall|i: int| 0 <= i < f.len() implies #[trigger] d[q + i] == f[i] by {}
    assert(d[q] == 0x28 && d[q + 1] == 0xb5 && d[q + 2] == 0x2f && d[q + 3] == 0xfd && d[q + 4] == fhd) by {
        assert(d[q + 0] == f[0] && d[q + 1] == f[1] && d[q + 2] == f[2] && d[q + 3] == f[3] && d[q + 4] == f[4]);
    }
    assert(d[q + 6] == f[6] && d[q + 7] == f[7] && d[q + 8] == f[8]);
    lemma_single_segment_header(d, p, checksum);
    lemma_le_three(d, q + 6, h);
    assert(d.subrange(q + 9, q + 9 + content.len()) =~= content) by {
        assert forall|i: int| 0 <= i < content.len() implies d[q + 9 + i] == content[i] by {
            assert(d[q + (9 + i)] == f[9 + i]);
        }
    }
    lemma_last_plain_block(d, p + 6, checksum, btype, size, content, end, total);
    let b = CompressedBlockView {
        offset: (p + 6) as u64,
        compressed_len: (3 + content.len()) as u32,
        uncompressed_len: Some(size as u32),
        literals: plain_block_literals(btype, size, content),
    };
    let s0 = ZstdScan { pos: p, frame: None, total, blocks };
    let s1 = ZstdScan { pos: p + 6, frame: Some(checksum), total, blocks };
    let s2 = ZstdScan { pos: end, frame: None, total: total + size, blocks: blocks.push(b) };
    assert(plain_block_literals(btype, size, content).len() == size);
    assert(zstd_run(d, s1) == zstd_run(d, s2));
    assert(zstd_run(d, s0) == zstd_run(d, s1));
}

/// Extraction reads a frame of one raw block as that block's bytes and then
/// goes on exactly where the frame ends, after its checksum where it carries
/// one: the stream `frame + rest` gives the frame's block followed by what
/// `rest` gives at that place.
pub proof fn law_zstd_frame_resumes_after_its_checksum(
    checksum: bool,
    fcs: u8,
    lits: Seq<u8>,
    ck: Seq<u8>,
    rest: Seq<u8>,
)
    requires
        lits.len() <= MAX_BLOCK_SIZE,
        ck.len() == 4,
    ensures
        ({
            let f = one_raw_block_frame(checksum, fcs, lits, ck);
            let b = CompressedBlockView {
                offset: 6,
                compressed_len: (3 + lits.len()) as u32,
                uncompressed_len: Some(lits.len() as u32),
                literals: lits,
            };
            zstd_extract_spec(f + rest) == zstd_run(
                f + rest,
                ZstdScan { pos: f.len(), frame: None, total: lits.len(), blocks: seq![b] },
            )
        }),
{
    let f = one_raw_block_frame(checksum, fcs, lits, ck);
    law_zstd_plain_block_frame_step(Seq::empty(), checksum, fcs, 0, lits.len(), lits, ck, rest, 0, Seq::empty());
    assert(Seq::<u8>::empty() + f + rest =~= f + rest);
    let b = CompressedBlockView {
        offset: 6,
        compressed_len: (3 + lits.len()) as u32,
        uncompressed_len: Some(lits.len() as u32),
        literals: lits,
    };
    assert(Seq::<CompressedBlockView>::empty().push(b) =~= seq![b]);
    assert((f + rest).len() > 0);
}

/// A stream of one frame of one raw block, with or without a checksum,
/// gives exactly that block.
pub proof fn law_zstd_one_raw_block_frame_gives_its_block(checksum: bool, fcs: u8, lits: Seq<u8>, ck: Seq<u8>)
    requires
        lits.len() <= MAX_BLOCK_SIZE,
        ck.len() == 4,
    ensures
        zstd_extract_spec(one_raw_block_frame(checksum, fcs, lits, ck)) == Ok::<Seq<CompressedBlockView>, ZiftErrorKind>(
            seq![
                CompressedBlockView {
                    offset: 6,
                    compressed_len: (3 + lits.len()) as u32,
                    uncompressed_len: Some(lits.len() as u32),
                    literals: lits,
                },
            ],
        ),
{
    let f = one_raw_block_frame(checksum, fcs, lits, ck);
    law_zstd_frame_resumes_after_its_checksum(checksum, fcs, lits, ck, Seq::empty());
    assert(f + Seq::<u8>::empty() =~= f);
}

} // verus!
