//! Gzip literal extraction without full decompression.
//!
//! This parser walks RFC 1952 gzip members and decodes DEFLATE blocks enough to
//! recover only literal bytes.
//! Back-references are intentionally skipped because they are not required for
//! bloom-filter construction.
pub mod bitstream;
pub mod deflate;
pub mod header;
pub mod inflate;

pub use bitstream::BitReader;

use vstd::prelude::*;
use crate::block::{CompressedBlock, CompressedBlockView, blocks_view, all_literals};
use crate::error::{ZiftError, ZiftErrorKind};
use header::{member_spec, parse_gzip_member, lemma_member_total};

verus! {

/// Maximum total extracted literal bytes across all blocks (256 MB).
pub const MAX_TOTAL_LITERALS: usize = 0x1000_0000;

/// Most members a stream may hold.
pub const MAX_MEMBERS: usize = 1024;

/// The members of a gzip stream from byte `b` on, after `members` members
/// giving `blocks` and `total` literals: each member's blocks in turn; the
/// stream may hold fewer than 1024 members.
pub open spec fn gzip_run(d: Seq<u8>, b: nat, blocks: Seq<CompressedBlockView>, total: nat, members: nat) -> Result<
    Seq<CompressedBlockView>,
    ZiftErrorKind,
>
    decreases d.len() - b,
{
    if b >= d.len() {
        Ok(blocks)
    } else {
        match member_spec(d, b, blocks, total) {
            Err(k) => Err(k),
            Ok((bs, t, e)) => if e <= b || e > d.len() {
                Err(ZiftErrorKind::InvalidData { offset: b })
            } else if members + 1 >= MAX_MEMBERS {
                Err(ZiftErrorKind::InvalidData { offset: e })
            } else {
                gzip_run(d, e, bs, t, members + 1)
            },
        }
    }
}

/// What extracting the literals of a gzip stream gives: empty input is
/// refused; otherwise its members are read from the start.
pub open spec fn gzip_extract_spec(d: Seq<u8>) -> Result<Seq<CompressedBlockView>, ZiftErrorKind> {
    if d.len() == 0 {
        Err(ZiftErrorKind::InvalidData { offset: 0 })
    } else {
        gzip_run(d, 0, Seq::empty(), 0, 0)
    }
}

/// Extracts literals from gzip member compressed blocks.
///
/// This parses gzip members, then walks each DEFLATE block. Literal bytes are
/// emitted from block headers and fixed/dynamic Huffman streams. Length/distance
/// pairs are skipped without reconstruction.
///
/// # Errors
///
/// Returns `ZiftError::InvalidData` if the stream is truncated or malformed, or
/// `ZiftError::BlockTooLarge` if the extracted literals exceed memory limits.
pub fn extract_literals(data: &[u8]) -> (r: Result<Vec<CompressedBlock>, ZiftError>)
    ensures
        match gzip_extract_spec(data@) {
            Ok(bs) => r matches Ok(v) && blocks_view(v@) == bs,
            Err(k) => r matches Err(e) && e@ == k,
        },
{
    if data.len() == 0 {
        return Err(ZiftError::invalid(0, "empty gzip input. Fix: provide non-empty compressed data"));
    }
    let ghost d = data@;
    let mut reader = BitReader::new(data, 0);
    let mut blocks: Vec<CompressedBlock> = Vec::new();
    let mut members: usize = 0;
    let mut total_literals: usize = 0;
    assert(blocks_view(blocks@) =~= Seq::<CompressedBlockView>::empty());
    while reader.remaining_bytes() > 0
        invariant
            reader.wf(),
            reader.src() == d,
            d == data@,
            reader.pos() % 8 == 0,
            members < MAX_MEMBERS,
            total_literals <= MAX_TOTAL_LITERALS,
            gzip_run(d, reader.pos() / 8, blocks_view(blocks@), total_literals as nat, members as nat)
                == gzip_extract_spec(d),
        decreases d.len() - reader.pos() / 8,
    {
        let ghost b = reader.pos() / 8;
        match parse_gzip_member(&mut reader, &mut blocks, &mut total_literals) {
            Ok(_) => {},
            Err(e) => return Err(e),
        }
        proof {
            reader.lemma_within();
        }
        members = members + 1;
        if members >= MAX_MEMBERS {
            return Err(
                ZiftError::invalid(
                    reader.byte_offset(),
                    "too many gzip members, likely malformed input. Fix: use a valid gzip stream",
                ),
            );
        }
    }
    Ok(blocks)
}

proof fn lemma_gzip_run_total(d: Seq<u8>, b: nat, blocks: Seq<CompressedBlockView>, total: nat, members: nat)
    requires
        gzip_run(d, b, blocks, total, members) is Ok,
        total == all_literals(blocks).len(),
        total <= MAX_TOTAL_LITERALS,
    ensures
        all_literals(gzip_run(d, b, blocks, total, members)->Ok_0).len() <= MAX_TOTAL_LITERALS,
    decreases d.len() - b,
{
    if b < d.len() {
        lemma_member_total(d, b, blocks, total);
        let (bs, t, e) = member_spec(d, b, blocks, total)->Ok_0;
        lemma_gzip_run_total(d, e, bs, t, members + 1);
    }
}

/// The literals that extraction from a gzip stream gives, over all its
/// members and blocks, stay within the literal limit.
pub proof fn law_gzip_literal_limit(d: Seq<u8>)
    requires
        gzip_extract_spec(d) is Ok,
    ensures
        all_literals(gzip_extract_spec(d)->Ok_0).len() <= MAX_TOTAL_LITERALS,
{
    lemma_gzip_run_total(d, 0, Seq::empty(), 0, 0);
}

} // verus!
