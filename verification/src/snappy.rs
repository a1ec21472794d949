//! Snappy literal extraction without full decompression.
//!
//! This module parses Snappy framed streams, collects literal chunks, and skips
//! copy chunks. The extracted data is grouped into [`CompressedBlock`] values
//! suitable for bloom-filter indexing.
//!
//! Snappy framing format:
//! - Stream identifier (0xff + 6-byte "sNaPpY")
//! - Chunks with 1-byte type tag + 3-byte length + data
//! - Type 0x00: Compressed data
//! - Type 0x01: Uncompressed data
//! - Type 0xfe: Padding
//! - Type 0xff: Stream identifier
use vstd::prelude::*;
use crate::block::{CompressedBlock, CompressedBlockView, blocks_view, all_literals, lemma_all_literals_push};
use crate::error::{ZiftError, ZiftErrorKind, reason_of};
use vstd::arithmetic::power2::pow2;

verus! {

/// Maximum Snappy chunk size (64KB).
pub const MAX_CHUNK_SIZE: usize = 65536;

/// Maximum number of chunks per stream.
pub const MAX_CHUNKS_PER_STREAM: usize = 100000;

/// Maximum total literals (256MB).
pub const MAX_TOTAL_LITERALS: usize = 0x1000_0000;

/// Maximum decompression ratio.
pub const MAX_DECOMPRESSION_RATIO: usize = 250;

/// Pending literals beyond this many bytes are flushed into a block.
pub const FLUSH_THRESHOLD: usize = 32768;

/// The error type of the Snappy decoder.
#[verifier::external_type_specification]
#[verifier::external_body]
pub struct ExSnapError(snap::Error);

/// The raw Snappy decoder.
#[verifier::external_type_specification]
#[verifier::external_body]
pub struct ExSnapDecoder(snap::raw::Decoder);

/// The little-endian base-128 number that starts at byte `i` of `input`:
/// seven bits from each byte, the top bit set on each byte but the last;
/// `None` where it runs past the input or past the fifth byte.
pub open spec fn varint_at(input: Seq<u8>, i: nat) -> Option<nat>
    decreases 5 - i,
{
    if i >= 5 || i >= input.len() {
        None
    } else if input[i as int] < 128 {
        Some(input[i as int] as nat * pow2(7 * i))
    } else {
        match varint_at(input, i + 1) {
            None => None,
            Some(rest) => Some((input[i as int] - 128) as nat * pow2(7 * i) + rest),
        }
    }
}

/// The length that the header of the raw Snappy data `input` declares:
/// 0 for empty input; otherwise the base-128 number it opens with, `None`
/// where that number is unterminated, longer than 5 bytes, or above
/// `2^32 - 1`.
pub open spec fn declared_len(input: Seq<u8>) -> Option<nat> {
    if input.len() == 0 {
        Some(0)
    } else {
        match varint_at(input, 0) {
            Some(n) => if n <= 0xFFFF_FFFF {
                Some(n)
            } else {
                None
            },
            None => None,
        }
    }
}

/// The bytes that the raw Snappy data `input` decompresses to, `None` where
/// it is not valid Snappy data.
pub uninterp spec fn snap_decompress(input: Seq<u8>) -> Option<Seq<u8>>;

/// Calls `snap::raw::decompress_len`, which reads the header's base-128
/// length (at most 5 bytes) and refuses an unterminated or longer header and
/// a length above `2^32 - 1`; empty input declares 0.
#[verifier::external_body]
fn raw_decompress_len(input: &[u8]) -> (r: Result<usize, snap::Error>)
    ensures
        r matches Ok(n) ==> declared_len(input@) == Some(n as nat),
        r is Err ==> declared_len(input@) is None,
{
    snap::raw::decompress_len(input)
}

/// Calls `snap::raw::Decoder::new`, which holds no state.
#[verifier::external_body]
fn raw_decoder() -> snap::raw::Decoder {
    snap::raw::Decoder::new()
}

/// Calls `snap::raw::Decoder::decompress_vec`. Its result is the named
/// value; empty input is refused, and the bytes it gives are as many as the
/// header declares.
#[verifier::external_body]
fn raw_decompress_vec(decoder: &mut snap::raw::Decoder, input: &[u8]) -> (r: Result<Vec<u8>, snap::Error>)
    ensures
        r matches Ok(v) ==> snap_decompress(input@) == Some(v@) && declared_len(input@) == Some(v@.len()) && input@.len() > 0,
        r is Err ==> snap_decompress(input@) is None,
{
    decoder.decompress_vec(input)
}

/// Calls `Vec::capacity`, which is never below the length.
#[verifier::external_body]
fn vec_capacity(v: &Vec<u8>) -> (c: usize)
    ensures
        c >= v@.len(),
{
    v.capacity()
}

/// The digit of `d` (below 16) in lower-case hexadecimal.
pub open spec fn hex_digit(d: nat) -> char {
    if d < 10 {
        (48 + d) as char
    } else {
        (87 + d) as char
    }
}

/// The explanation of a refused reserved chunk type: the type is written as
/// two lower-case hexadecimal digits.
pub open spec fn reserved_reason(chunk_type: u8) -> Seq<char> {
    "reserved unskippable snappy chunk type 0x"@ + seq![hex_digit(chunk_type as nat / 16), hex_digit(
        chunk_type as nat % 16,
    )] + ". Fix: use a standard Snappy framing stream"@
}

/// The explanation of a refused reserved chunk type, formatted by std's
/// `format!`: the contract states what its documentation gives for `{:02x}`
/// on a `u8`, two lower-case hexadecimal digits, zero-padded.
#[verifier::external_body]
fn reserved_chunk_reason(chunk_type: u8) -> (r: String)
    ensures
        r@ == reserved_reason(chunk_type),
{
    format!("reserved unskippable snappy chunk type 0x{chunk_type:02x}. Fix: use a standard Snappy framing stream")
}

/// What one chunk gives: literal bytes to append, a malformed chunk, or a
/// declared decompressed size above the literal limit.
pub enum ChunkOutcome {
    Literals(Seq<u8>),
    Invalid(Seq<char>),
    TooLarge(nat),
}

pub open spec fn crc_short_reason() -> Seq<char> {
    "compressed snappy chunk too short for CRC. Fix: use a valid Snappy stream"@
}

pub open spec fn invalid_compressed_reason() -> Seq<char> {
    "invalid snappy compressed chunk. Fix: use a valid Snappy stream"@
}

pub open spec fn decompression_failed_reason() -> Seq<char> {
    "snappy decompression failed. Fix: use a valid Snappy stream"@
}

pub open spec fn uncompressed_short_reason() -> Seq<char> {
    "uncompressed snappy chunk too short (needs 4-byte CRC + data). Fix: use a valid Snappy stream"@
}

pub open spec fn truncated_length_reason() -> Seq<char> {
    "truncated chunk length, need 3 bytes for Snappy framing length. Fix: use a complete Snappy stream"@
}

pub open spec fn empty_input_reason() -> Seq<char> {
    "empty snappy input. Fix: provide non-empty Snappy data"@
}

pub open spec fn too_many_chunks_reason() -> Seq<char> {
    "too many Snappy chunks (max 100000). Fix: use a smaller Snappy stream or increase MAX_CHUNKS_PER_STREAM"@
}

pub open spec fn ratio_reason() -> Seq<char> {
    "decompression ratio exceeded limit of 250. Fix: use a non-malicious Snappy stream or increase MAX_DECOMPRESSION_RATIO"@
}

pub open spec fn chunk_bounds_reason() -> Seq<char> {
    "chunk exceeds data bounds. Fix: use a complete Snappy stream"@
}

/// What the chunk of type `chunk_type` with contents `chunk` gives. A
/// compressed chunk holds a 4-byte CRC, then raw Snappy data whose
/// decompressed bytes are its literals; an uncompressed chunk holds a 4-byte
/// CRC and at least one literal byte; padding and stream identifiers give
/// none; the other types are reserved and refused.
pub open spec fn chunk_spec(chunk_type: u8, chunk: Seq<u8>) -> ChunkOutcome {
    if chunk_type == 0 {
        if chunk.len() < 4 {
            ChunkOutcome::Invalid(crc_short_reason())
        } else {
            let c = chunk.subrange(4, chunk.len() as int);
            match declared_len(c) {
                None => ChunkOutcome::Invalid(invalid_compressed_reason()),
                Some(n) => if n > MAX_TOTAL_LITERALS {
                    ChunkOutcome::TooLarge(n)
                } else {
                    match snap_decompress(c) {
                        None => ChunkOutcome::Invalid(decompression_failed_reason()),
                        Some(out) => ChunkOutcome::Literals(out),
                    }
                },
            }
        }
    } else if chunk_type == 1 {
        if chunk.len() <= 4 {
            ChunkOutcome::Invalid(uncompressed_short_reason())
        } else {
            ChunkOutcome::Literals(chunk.subrange(4, chunk.len() as int))
        }
    } else if chunk_type >= 0xfe {
        ChunkOutcome::Literals(Seq::empty())
    } else {
        ChunkOutcome::Invalid(reserved_reason(chunk_type))
    }
}

/// The error a chunk outcome reports at offset `pos`, if any, with its
/// explanation.
pub open spec fn chunk_error(o: ChunkOutcome, pos: nat) -> (ZiftErrorKind, Seq<char>) {
    match o {
        ChunkOutcome::TooLarge(n) => (ZiftErrorKind::BlockTooLarge { size: n, max: MAX_TOTAL_LITERALS as nat }, Seq::empty()),
        ChunkOutcome::Invalid(why) => (ZiftErrorKind::InvalidData { offset: pos }, why),
        ChunkOutcome::Literals(_) => (ZiftErrorKind::InvalidData { offset: pos }, Seq::empty()),
    }
}

/// Checks the decompressed length that a compressed chunk's header declares
/// (`None` where the decoder could not read it).
pub fn check_declared_len(declared: Option<usize>, pos: usize) -> (r: Result<usize, ZiftError>)
    ensures
        match declared {
            None => r matches Err(e) && e@ == (ZiftErrorKind::InvalidData { offset: pos as nat })
                && reason_of(e) == invalid_compressed_reason(),
            Some(n) => if n > MAX_TOTAL_LITERALS {
                r matches Err(e) && e@ == (ZiftErrorKind::BlockTooLarge { size: n as nat, max: MAX_TOTAL_LITERALS as nat })
            } else {
                r == Ok::<usize, ZiftError>(n)
            },
        },
{
    match declared {
        None => Err(ZiftError::invalid(pos, "invalid snappy compressed chunk. Fix: use a valid Snappy stream")),
        Some(n) => {
            if n > MAX_TOTAL_LITERALS {
                Err(ZiftError::too_large(n, MAX_TOTAL_LITERALS))
            } else {
                Ok(n)
            }
        },
    }
}

/// Appends the bytes a compressed chunk decompressed to (`None` where the
/// decoder refused it).
pub fn append_decompressed(decompressed: Option<Vec<u8>>, current_literals: &mut Vec<u8>, pos: usize) -> (r: Result<(), ZiftError>)
    ensures
        match decompressed {
            None => r matches Err(e) && e@ == (ZiftErrorKind::InvalidData { offset: pos as nat })
                && reason_of(e) == decompression_failed_reason()
                && final(current_literals)@ == old(current_literals)@,
            Some(v) => r is Ok && final(current_literals)@ == old(current_literals)@ + v@,
        },
{
    match decompressed {
        None => Err(ZiftError::invalid(pos, "snappy decompression failed. Fix: use a valid Snappy stream")),
        Some(v) => {
            current_literals.extend_from_slice(v.as_slice());
            assert(current_literals@ == old(current_literals)@ + v@);
            Ok(())
        },
    }
}

fn handle_snappy_chunk(chunk_type: u8, chunk_data: &[u8], current_literals: &mut Vec<u8>, pos: usize) -> (r: Result<(), ZiftError>)
    ensures
        match chunk_spec(chunk_type, chunk_data@) {
            ChunkOutcome::Literals(l) => r is Ok && final(current_literals)@ == old(current_literals)@ + l,
            o => r matches Err(e) && (e@, reason_of(e)) == chunk_error(o, pos as nat),
        },
        r is Ok ==> final(current_literals)@.len() <= old(current_literals)@.len() + MAX_TOTAL_LITERALS + chunk_data@.len(),
        r is Err ==> final(current_literals)@ == old(current_literals)@,
{
    if chunk_type == 0 {
        if chunk_data.len() < 4 {
            return Err(ZiftError::invalid(pos, "compressed snappy chunk too short for CRC. Fix: use a valid Snappy stream"));
        }
        let compressed = &chunk_data[4..chunk_data.len()];
        let declared = match raw_decompress_len(compressed) {
            Ok(n) => Some(n),
            Err(_) => None,
        };
        let declared_n = match check_declared_len(declared, pos) {
            Ok(n) => n,
            Err(e) => return Err(e),
        };
        let mut decoder = raw_decoder();
        let decompressed = match raw_decompress_vec(&mut decoder, compressed) {
            Ok(v) => Some(v),
            Err(_) => None,
        };
        append_decompressed(decompressed, current_literals, pos)
    } else if chunk_type == 1 {
        if chunk_data.len() <= 4 {
            return Err(
                ZiftError::invalid(
                    pos,
                    "uncompressed snappy chunk too short (needs 4-byte CRC + data). Fix: use a valid Snappy stream",
                ),
            );
        }
        let payload = &chunk_data[4..chunk_data.len()];
        current_literals.extend_from_slice(payload);
        assert(current_literals@ == old(current_literals)@ + payload@);
        Ok(())
    } else if chunk_type >= 0xfe {
        assert(old(current_literals)@ + Seq::<u8>::empty() == old(current_literals)@);
        Ok(())
    } else {
        Err(ZiftError::InvalidData { offset: pos, reason: reserved_chunk_reason(chunk_type) })
    }
}

/// `x` as a `u32`, `u32::MAX` where it does not fit.
pub open spec fn sat_u32(x: nat) -> u32 {
    if x <= u32::MAX {
        x as u32
    } else {
        u32::MAX
    }
}

fn to_u32_saturating(x: usize) -> (r: u32)
    ensures
        r == sat_u32(x as nat),
{
    if x <= 0xFFFF_FFFF {
        x as u32
    } else {
        u32::MAX
    }
}

/// The block that `literals` make, from `block_start` up to `pos`.
pub open spec fn block_of(block_start: nat, pos: nat, literals: Seq<u8>) -> CompressedBlockView {
    CompressedBlockView {
        offset: block_start as u64,
        compressed_len: sat_u32((pos - block_start) as nat),
        uncompressed_len: Some(sat_u32(literals.len())),
        literals,
    }
}

/// Flushing the pending `literals` into a block: the new running total, or
/// the error where it exceeds the literal limit.
pub open spec fn flush_spec(
    blocks: Seq<CompressedBlockView>,
    literals: Seq<u8>,
    block_start: nat,
    pos: nat,
    total: nat,
) -> Result<(Seq<CompressedBlockView>, nat), ZiftErrorKind> {
    let new_total = total + literals.len();
    if new_total > MAX_TOTAL_LITERALS {
        Err(ZiftErrorKind::BlockTooLarge { size: new_total, max: MAX_TOTAL_LITERALS as nat })
    } else {
        Ok((blocks.push(block_of(block_start, pos, literals)), new_total))
    }
}

/// Moves the pending `literals` into a new block spanning `block_start..pos`
/// and returns the new running literal total. The literal buffer is left
/// empty and keeps room for as many bytes as it held before.
pub fn flush_block(
    blocks: &mut Vec<CompressedBlock>,
    literals: &mut Vec<u8>,
    block_start: usize,
    pos: usize,
    total_literals: usize,
) -> (r: Result<usize, ZiftError>)
    requires
        block_start <= pos,
        total_literals + old(literals)@.len() <= usize::MAX,
    ensures
        match flush_spec(blocks_view(old(blocks)@), old(literals)@, block_start as nat, pos as nat, total_literals as nat) {
            Err(k) => r matches Err(e) && e@ == k && final(blocks)@ == old(blocks)@ && final(literals)@ == old(literals)@,
            Ok((bs, t)) => r == Ok::<usize, ZiftError>(t as usize) && blocks_view(final(blocks)@) == bs
                && final(literals)@ == Seq::<u8>::empty(),
        },
{
    let new_total = total_literals + literals.len();
    if new_total > MAX_TOTAL_LITERALS {
        return Err(ZiftError::too_large(new_total, MAX_TOTAL_LITERALS));
    }
    let mut block = CompressedBlock::new(block_start as u64, to_u32_saturating(pos - block_start));
    block.uncompressed_len = Some(to_u32_saturating(literals.len()));
    let flushed_capacity = vec_capacity(literals);
    let mut taken: Vec<u8> = Vec::new();
    std::mem::swap(&mut taken, literals);
    literals.reserve(flushed_capacity);
    block.literals = taken;
    let ghost old_view = blocks_view(blocks@);
    blocks.push(block);
    assert(blocks_view(blocks@) =~= old_view.push(block_of(block_start as nat, pos as nat, old(literals)@)));
    Ok(new_total)
}

/// A little-endian 24-bit number.
pub open spec fn le24(b0: u8, b1: u8, b2: u8) -> nat {
    b0 as nat + 256 * b1 as nat + 65536 * b2 as nat
}

/// Decodes the 3-byte little-endian chunk length at `start`; returns the
/// length and the bytes it took.
fn decode_chunk_len(data: &[u8], start: usize) -> (r: Result<(usize, usize), ZiftError>)
    ensures
        start + 3 > data@.len() ==> (r matches Err(e) && e@ == (ZiftErrorKind::InvalidData { offset: start as nat })
            && reason_of(e) == truncated_length_reason()),
        start + 3 <= data@.len() ==> (r matches Ok((len, used)) && used == 3
            && len == le24(data@[start as int], data@[start + 1], data@[start + 2])),
{
    if start > data.len() || data.len() - start < 3 {
        return Err(
            ZiftError::invalid(
                start,
                "truncated chunk length, need 3 bytes for Snappy framing length. Fix: use a complete Snappy stream",
            ),
        );
    }
    let b0 = data[start];
    let b1 = data[start + 1];
    let b2 = data[start + 2];
    let len = (b0 as usize) | ((b1 as usize) << 8) | ((b2 as usize) << 16);
    assert(len == b0 as nat + 256 * b1 as nat + 65536 * b2 as nat) by (bit_vector)
        requires
            len == (b0 as usize) | ((b1 as usize) << 8) | ((b2 as usize) << 16),
    ;
    Ok((len, 3))
}

/// The bytes that open a Snappy framed stream: its identifier chunk.
pub open spec fn stream_identifier() -> Seq<u8> {
    seq![0xffu8, 0x06, 0x00, 0x00, 0x73, 0x4e, 0x61, 0x50, 0x70, 0x59]
}

fn starts_with_stream_identifier(data: &[u8]) -> (r: bool)
    ensures
        r == (data@.len() >= 10 && data@.subrange(0, 10) == stream_identifier()),
{
    let id: [u8; 10] = [0xff, 0x06, 0x00, 0x00, 0x73, 0x4e, 0x61, 0x50, 0x70, 0x59];
    assert(id@ == stream_identifier());
    if data.len() < 10 {
        return false;
    }
    let mut i: usize = 0;
    while i < 10
        invariant
            data@.len() >= 10,
            id@ == stream_identifier(),
            i <= 10,
            forall|j: int| 0 <= j < i ==> data@[j] == id@[j],
        decreases 10 - i,
    {
        if data[i] != id[i] {
            assert(data@.subrange(0, 10)[i as int] != stream_identifier()[i as int]);
            return false;
        }
        i = i + 1;
    }
    assert(data@.subrange(0, 10) =~= stream_identifier());
    true
}

/// Where a scan of a Snappy stream stands between two chunks: the position,
/// the chunks seen, the literals already flushed into blocks, the pending
/// literals, where the pending block starts, and the blocks so far.
pub struct SnappyScan {
    pub pos: nat,
    pub count: nat,
    pub total: nat,
    pub pending: Seq<u8>,
    pub block_start: nat,
    pub blocks: Seq<CompressedBlockView>,
}

/// The most literals a stream of `len` bytes may give: 250 times its
/// length (saturating), and at least 1 MiB.
pub open spec fn ratio_limit(len: nat) -> nat {
    let scaled = if len * MAX_DECOMPRESSION_RATIO > usize::MAX {
        usize::MAX as nat
    } else {
        (len * MAX_DECOMPRESSION_RATIO) as nat
    };
    if scaled < 0x10_0000 {
        0x10_0000
    } else {
        scaled
    }
}

/// The end of a scan: the pending literals, if any, make the last block.
pub open spec fn snappy_finish(s: SnappyScan) -> Result<Seq<CompressedBlockView>, (ZiftErrorKind, Seq<char>)> {
    if s.pending.len() == 0 {
        Ok(s.blocks)
    } else {
        match flush_spec(s.blocks, s.pending, s.block_start, s.pos, s.total) {
            Err(e) => Err((e, Seq::empty())),
            Ok((bs, _)) => Ok(bs),
        }
    }
}

/// The scan from `s` to the end of `data`. Before each chunk the chunk
/// count, the literal limit and the decompression ratio are checked; then
/// the chunk's type byte and 3-byte length are read, the chunk must fit in
/// 64 KiB and in the input, and its literals join the pending ones, which
/// are flushed into a block once they pass 32 KiB.
pub open spec fn snappy_run(data: Seq<u8>, s: SnappyScan) -> Result<Seq<CompressedBlockView>, (ZiftErrorKind, Seq<char>)>
    decreases data.len() - s.pos,
{
    if s.pos >= data.len() {
        snappy_finish(s)
    } else if s.count + 1 >= MAX_CHUNKS_PER_STREAM {
        Err((ZiftErrorKind::InvalidData { offset: s.pos }, too_many_chunks_reason()))
    } else if s.total + s.pending.len() > MAX_TOTAL_LITERALS {
        Err((ZiftErrorKind::BlockTooLarge { size: s.total + s.pending.len(), max: MAX_TOTAL_LITERALS as nat }, Seq::empty()))
    } else if s.total + s.pending.len() > ratio_limit(data.len()) {
        Err((ZiftErrorKind::InvalidData { offset: s.pos }, ratio_reason()))
    } else if s.pos + 4 > data.len() {
        Err((ZiftErrorKind::InvalidData { offset: s.pos + 1 }, truncated_length_reason()))
    } else {
        let p: int = s.pos as int;
        let q: int = p + 4;
        let clen: int = le24(data[p + 1], data[p + 2], data[p + 3]) as int;
        if clen > MAX_CHUNK_SIZE {
            Err((ZiftErrorKind::BlockTooLarge { size: clen as nat, max: MAX_CHUNK_SIZE as nat }, Seq::empty()))
        } else if q + clen > data.len() {
            Err((ZiftErrorKind::InvalidData { offset: q as nat }, chunk_bounds_reason()))
        } else {
            match chunk_spec(data[s.pos as int], data.subrange(q, q + clen)) {
                ChunkOutcome::Literals(l) => {
                    let pending = s.pending + l;
                    if pending.len() > FLUSH_THRESHOLD {
                        match flush_spec(s.blocks, pending, s.block_start, q as nat, s.total) {
                            Err(e) => Err((e, Seq::empty())),
                            Ok((bs, t)) => snappy_run(
                                data,
                                SnappyScan {
                                    pos: (q + clen) as nat,
                                    count: s.count + 1,
                                    total: t,
                                    pending: Seq::empty(),
                                    block_start: q as nat,
                                    blocks: bs,
                                },
                            ),
                        }
                    } else {
                        snappy_run(
                            data,
                            SnappyScan {
                                pos: (q + clen) as nat,
                                count: s.count + 1,
                                total: s.total,
                                pending,
                                block_start: s.block_start,
                                blocks: s.blocks,
                            },
                        )
                    }
                },
                o => Err(chunk_error(o, q as nat)),
            }
        }
    }
}

/// Where the chunks of `data` start: after the stream identifier, if the
/// stream opens with one.
pub open spec fn first_chunk(data: Seq<u8>) -> nat {
    if data.len() >= 10 && data.subrange(0, 10) == stream_identifier() {
        10
    } else {
        0
    }
}

/// What extracting the literals of a Snappy framed stream gives: empty input
/// is refused; otherwise the scan runs from the first chunk.
pub open spec fn extract_spec(data: Seq<u8>) -> Result<Seq<CompressedBlockView>, (ZiftErrorKind, Seq<char>)> {
    if data.len() == 0 {
        Err((ZiftErrorKind::InvalidData { offset: 0 }, empty_input_reason()))
    } else {
        snappy_run(
            data,
            SnappyScan {
                pos: first_chunk(data),
                count: 0,
                total: 0,
                pending: Seq::empty(),
                block_start: first_chunk(data),
                blocks: Seq::empty(),
            },
        )
    }
}

fn ratio_limit_of(len: usize) -> (r: usize)
    ensures
        r == ratio_limit(len as nat),
{
    let scaled = if len > usize::MAX / MAX_DECOMPRESSION_RATIO {
        usize::MAX
    } else {
        len * MAX_DECOMPRESSION_RATIO
    };
    if scaled < 0x10_0000 {
        0x10_0000
    } else {
        scaled
    }
}

/// Extract literal bytes from a Snappy-framed stream.
///
/// Parses Snappy framing chunks, collecting literals from uncompressed
/// and compressed data chunks while skipping padding and stream identifiers.
///
/// # Errors
///
/// Returns [`ZiftError::InvalidData`] if the stream is truncated or contains
/// malformed chunks, or [`ZiftError::BlockTooLarge`] if limits are exceeded.
pub fn extract_literals(data: &[u8]) -> (r: Result<Vec<CompressedBlock>, ZiftError>)
    ensures
        match extract_spec(data@) {
            Ok(bs) => r matches Ok(v) && blocks_view(v@) == bs,
            Err((k, why)) => r matches Err(e) && e@ == k && reason_of(e) == why,
        },
{
    if data.len() == 0 {
        return Err(ZiftError::invalid(0, "empty snappy input. Fix: provide non-empty Snappy data"));
    }
    let ghost d = data@;
    let mut blocks: Vec<CompressedBlock> = Vec::new();
    let mut pos: usize = 0;
    let mut chunk_count: usize = 0;
    let mut total_literals: usize = 0;
    if starts_with_stream_identifier(data) {
        pos = 10;
    }
    let mut current_literals: Vec<u8> = Vec::with_capacity(MAX_CHUNK_SIZE);
    let mut block_start = pos;
    let max_allowed_literals = ratio_limit_of(data.len());
    assert(blocks_view(blocks@) =~= Seq::<CompressedBlockView>::empty());
    while pos < data.len()
        invariant
            d == data@,
            d.len() > 0,
            pos <= d.len(),
            block_start <= pos,
            chunk_count < MAX_CHUNKS_PER_STREAM,
            total_literals <= MAX_TOTAL_LITERALS,
            current_literals@.len() <= FLUSH_THRESHOLD,
            max_allowed_literals == ratio_limit(d.len()),
            snappy_run(
                d,
                SnappyScan {
                    pos: pos as nat,
                    count: chunk_count as nat,
                    total: total_literals as nat,
                    pending: current_literals@,
                    block_start: block_start as nat,
                    blocks: blocks_view(blocks@),
                },
            ) == extract_spec(d),
        decreases d.len() - pos,
    {
        let ghost s = SnappyScan {
            pos: pos as nat,
            count: chunk_count as nat,
            total: total_literals as nat,
            pending: current_literals@,
            block_start: block_start as nat,
            blocks: blocks_view(blocks@),
        };
        let chunk_start = pos;
        chunk_count = chunk_count + 1;
        if chunk_count >= MAX_CHUNKS_PER_STREAM {
            return Err(
                ZiftError::invalid(
                    pos,
                    "too many Snappy chunks (max 100000). Fix: use a smaller Snappy stream or increase MAX_CHUNKS_PER_STREAM",
                ),
            );
        }
        if total_literals + current_literals.len() > MAX_TOTAL_LITERALS {
            return Err(ZiftError::too_large(total_literals + current_literals.len(), MAX_TOTAL_LITERALS));
        }
        if total_literals + current_literals.len() > max_allowed_literals {
            return Err(
                ZiftError::invalid(
                    pos,
                    "decompression ratio exceeded limit of 250. Fix: use a non-malicious Snappy stream or increase MAX_DECOMPRESSION_RATIO",
                ),
            );
        }
        let chunk_type = data[pos];
        pos = pos + 1;
        let (chunk_len, tag_len) = match decode_chunk_len(data, pos) {
            Ok(x) => x,
            Err(e) => return Err(e),
        };
        pos = pos + tag_len;
        if chunk_len > MAX_CHUNK_SIZE {
            return Err(ZiftError::too_large(chunk_len, MAX_CHUNK_SIZE));
        }
        if chunk_len > data.len() - pos {
            return Err(ZiftError::invalid(pos, "chunk exceeds data bounds. Fix: use a complete Snappy stream"));
        }
        let chunk_data = &data[pos..pos + chunk_len];
        let ghost pending0 = current_literals@;
        match handle_snappy_chunk(chunk_type, chunk_data, &mut current_literals, pos) {
            Ok(_) => {},
            Err(e) => return Err(e),
        }
        if current_literals.len() > FLUSH_THRESHOLD {
            total_literals = match flush_block(&mut blocks, &mut current_literals, block_start, pos, total_literals) {
                Ok(t) => t,
                Err(e) => return Err(e),
            };
            block_start = pos;
        }
        pos = pos + chunk_len;
    }
    if current_literals.len() > 0 {
        match flush_block(&mut blocks, &mut current_literals, block_start, pos, total_literals) {
            Ok(_) => {},
            Err(e) => return Err(e),
        }
    }
    Ok(blocks)
}

/// The literals of the chunks of `data` from `pos` on, concatenated, with
/// no limit applied: `None` where a chunk is malformed or cut short.
pub open spec fn chunk_literals(data: Seq<u8>, pos: nat) -> Option<Seq<u8>>
    decreases data.len() - pos,
{
    if pos >= data.len() {
        Some(Seq::empty())
    } else if pos + 4 > data.len() {
        None
    } else {
        let p: int = pos as int;
        let q: int = p + 4;
        let clen: int = le24(data[p + 1], data[p + 2], data[p + 3]) as int;
        if q + clen > data.len() {
            None
        } else {
            match chunk_spec(data[p], data.subrange(q, q + clen)) {
                ChunkOutcome::Literals(l) => match chunk_literals(data, (q + clen) as nat) {
                    None => None,
                    Some(rest) => Some(l + rest),
                },
                _ => None,
            }
        }
    }
}

/// A scan that succeeds keeps every literal of the chunks it walks, in
/// order, within the literal limit, and makes no empty block.
proof fn lemma_run_keeps_literals(data: Seq<u8>, s: SnappyScan)
    requires
        snappy_run(data, s) is Ok,
        s.total == all_literals(s.blocks).len(),
        s.total <= MAX_TOTAL_LITERALS,
        forall|i: int| 0 <= i < s.blocks.len() ==> (#[trigger] s.blocks[i]).literals.len() > 0,
    ensures
        chunk_literals(data, s.pos) is Some,
        all_literals(snappy_run(data, s)->Ok_0) == all_literals(s.blocks) + s.pending + chunk_literals(data, s.pos)->Some_0,
        all_literals(snappy_run(data, s)->Ok_0).len() <= MAX_TOTAL_LITERALS,
        forall|i: int|
            0 <= i < snappy_run(data, s)->Ok_0.len() ==> (#[trigger] snappy_run(data, s)->Ok_0[i]).literals.len() > 0,
    decreases data.len() - s.pos,
{
    if s.pos >= data.len() {
        if s.pending.len() > 0 {
            lemma_all_literals_push(s.blocks, block_of(s.block_start, s.pos, s.pending));
        }
        assert(all_literals(s.blocks) + s.pending + Seq::<u8>::empty() =~= all_literals(s.blocks) + s.pending);
        if s.pending.len() == 0 {
            assert(all_literals(s.blocks) + s.pending =~= all_literals(s.blocks));
        }
    } else {
        let p: int = s.pos as int;
        let q: int = p + 4;
        let clen: int = le24(data[p + 1], data[p + 2], data[p + 3]) as int;
        let l = chunk_spec(data[p], data.subrange(q, q + clen))->Literals_0;
        let pending = s.pending + l;
        if pending.len() > FLUSH_THRESHOLD {
            let (bs, t) = flush_spec(s.blocks, pending, s.block_start, q as nat, s.total)->Ok_0;
            let next = SnappyScan {
                pos: (q + clen) as nat,
                count: s.count + 1,
                total: t,
                pending: Seq::empty(),
                block_start: q as nat,
                blocks: bs,
            };
            lemma_all_literals_push(s.blocks, block_of(s.block_start, q as nat, pending));
            lemma_run_keeps_literals(data, next);
            let rest = chunk_literals(data, next.pos)->Some_0;
            assert(all_literals(bs) + Seq::<u8>::empty() + rest =~= all_literals(s.blocks) + s.pending + (l + rest));
        } else {
            let next = SnappyScan {
                pos: (q + clen) as nat,
                count: s.count + 1,
                total: s.total,
                pending,
                block_start: s.block_start,
                blocks: s.blocks,
            };
            lemma_run_keeps_literals(data, next);
            let rest = chunk_literals(data, next.pos)->Some_0;
            assert(all_literals(s.blocks) + pending + rest =~= all_literals(s.blocks) + s.pending + (l + rest));
        }
    }
}

/// Extraction keeps every literal: the blocks' literals, concatenated, are
/// the literals of the stream's chunks in order; they stay within the
/// literal limit, and no block is empty.
pub proof fn law_snappy_blocks_hold_all_literals(data: Seq<u8>)
    requires
        extract_spec(data) is Ok,
    ensures
        chunk_literals(data, first_chunk(data)) == Some(all_literals(extract_spec(data)->Ok_0)),
        all_literals(extract_spec(data)->Ok_0).len() <= MAX_TOTAL_LITERALS,
        forall|i: int|
            0 <= i < extract_spec(data)->Ok_0.len() ==> (#[trigger] extract_spec(data)->Ok_0[i]).literals.len() > 0,
{
    let s = SnappyScan {
        pos: first_chunk(data),
        count: 0,
        total: 0,
        pending: Seq::empty(),
        block_start: first_chunk(data),
        blocks: Seq::empty(),
    };
    lemma_run_keeps_literals(data, s);
    let rest = chunk_literals(data, s.pos)->Some_0;
    assert(all_literals(Seq::<CompressedBlockView>::empty()) + Seq::<u8>::empty() + rest =~= rest);
}


/// A Snappy framed stream of one uncompressed chunk, of any length up to
/// `MAX_CHUNK_SIZE`: the stream identifier, then the chunk's type byte 1, its
/// 3-byte little-endian length, a 4-byte CRC and the data bytes.
/// The identifier may be left out.
pub open spec fn one_chunk_stream(with_id: bool, crc: Seq<u8>, payload: Seq<u8>) -> Seq<u8> {
    let n = payload.len() + 4;
    (if with_id {
        stream_identifier()
    } else {
        Seq::empty()
    }) + seq![1u8, (n % 256) as u8, ((n / 256) % 256) as u8, (n / 65536) as u8] + crc + payload
}

/// A chunk is never refused for its size up to `MAX_CHUNK_SIZE`: a stream of
/// one uncompressed chunk of any such length is read whole, and its blocks
/// hold exactly the chunk's data bytes.
pub proof fn law_snappy_chunks_up_to_the_size_limit_are_read(with_id: bool, crc: Seq<u8>, payload: Seq<u8>)
    requires
        crc.len() == 4,
        1 <= payload.len(),
        payload.len() + 4 <= MAX_CHUNK_SIZE,
    ensures
        extract_spec(one_chunk_stream(with_id, crc, payload)) is Ok,
        all_literals(extract_spec(one_chunk_stream(with_id, crc, payload))->Ok_0) == payload,
{
    let d = one_chunk_stream(with_id, crc, payload);
    let n = payload.len() + 4;
    let id: Seq<u8> = if with_id { stream_identifier() } else { Seq::empty() };
    let c: int = id.len() as int;
    let hdr = seq![1u8, (n % 256) as u8, ((n / 256) % 256) as u8, (n / 65536) as u8];
    assert(d =~= id + hdr + crc + payload);
    if with_id {
        assert(d.subrange(0, 10) =~= stream_identifier());
    } else {
        assert(d[0] == 1);
        if d.len() >= 10 {
            assert(d.subrange(0, 10)[0] != stream_identifier()[0]);
        }
    }
    assert(first_chunk(d) == c as nat);
    assert(d[c] == 1 && d[c + 1] == hdr[1] && d[c + 2] == hdr[2] && d[c + 3] == hdr[3]);
    assert(le24(d[c + 1], d[c + 2], d[c + 3]) == n);
    let q = c + 4;
    let chunk = d.subrange(q, q + n);
    assert(chunk =~= crc + payload);
    assert(chunk.subrange(4, chunk.len() as int) =~= payload);
    assert(chunk_spec(1, chunk) == ChunkOutcome::Literals(payload));
    let s0 = SnappyScan { pos: c as nat, count: 0, total: 0, pending: Seq::empty(), block_start: c as nat, blocks: Seq::empty() };
    assert(Seq::<u8>::empty() + payload =~= payload);
    lemma_all_literals_push(Seq::empty(), block_of(c as nat, q as nat, payload));
    lemma_all_literals_push(Seq::empty(), block_of(c as nat, d.len(), payload));
    assert(all_literals(Seq::<CompressedBlockView>::empty()) =~= Seq::<u8>::empty());
    if payload.len() > FLUSH_THRESHOLD {
        let bs = Seq::<CompressedBlockView>::empty().push(block_of(c as nat, q as nat, payload));
        let s1 = SnappyScan { pos: d.len(), count: 1, total: payload.len(), pending: Seq::empty(), block_start: q as nat, blocks: bs };
        assert(snappy_run(d, s1) == Ok::<Seq<CompressedBlockView>, (ZiftErrorKind, Seq<char>)>(bs));
        assert(snappy_run(d, s0) == snappy_run(d, s1));
    } else {
        let s1 = SnappyScan { pos: d.len(), count: 1, total: 0, pending: payload, block_start: c as nat, blocks: Seq::empty() };
        let bs = Seq::<CompressedBlockView>::empty().push(block_of(c as nat, d.len(), payload));
        assert(snappy_run(d, s1) == Ok::<Seq<CompressedBlockView>, (ZiftErrorKind, Seq<char>)>(bs));
        assert(snappy_run(d, s0) == snappy_run(d, s1));
    }
}

/// Every refusal for size names a size above the limit it names: a chunk
/// is refused for its length only when that length passes the chunk limit,
/// and the literals only when they pass the literal limit.
pub proof fn law_snappy_size_refusals_exceed_their_limit(data: Seq<u8>, s: SnappyScan)
    ensures
        snappy_run(data, s) matches Err((ZiftErrorKind::BlockTooLarge { size, max }, _)) ==> size > max,
    decreases data.len() - s.pos,
{
    if s.pos < data.len() && s.count + 1 < MAX_CHUNKS_PER_STREAM && s.total + s.pending.len() <= MAX_TOTAL_LITERALS
        && s.total + s.pending.len() <= ratio_limit(data.len()) && s.pos + 4 <= data.len() {
        let p: int = s.pos as int;
        let q: int = p + 4;
        let clen: int = le24(data[p + 1], data[p + 2], data[p + 3]) as int;
        if clen <= MAX_CHUNK_SIZE && q + clen <= data.len() {
            match chunk_spec(data[s.pos as int], data.subrange(q, q + clen)) {
                ChunkOutcome::Literals(l) => {
                    let pending = s.pending + l;
                    if pending.len() > FLUSH_THRESHOLD {
                        match flush_spec(s.blocks, pending, s.block_start, q as nat, s.total) {
                            Err(e) => {},
                            Ok((bs, t)) => {
                                law_snappy_size_refusals_exceed_their_limit(
                                    data,
                                    SnappyScan {
                                        pos: (q + clen) as nat,
                                        count: s.count + 1,
                                        total: t,
                                        pending: Seq::empty(),
                                        block_start: q as nat,
                                        blocks: bs,
                                    },
                                );
                            },
                        }
                    } else {
                        law_snappy_size_refusals_exceed_their_limit(
                            data,
                            SnappyScan {
                                pos: (q + clen) as nat,
                                count: s.count + 1,
                                total: s.total,
                                pending,
                                block_start: s.block_start,
                                blocks: s.blocks,
                            },
                        );
                    }
                },
                _ => {},
            }
        }
    }
}

} // verus!
