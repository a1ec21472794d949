//! Zstd frame headers and block types.
//!
//! A Zstd stream is a sequence of frames. A standard frame opens with the
//! magic number `0xFD2FB528` and a frame header; skippable frames open with
//! a magic number in `0x184D2A50..=0x184D2A5F`, then a 4-byte length, then
//! that many bytes of content that carry no data.
use vstd::prelude::*;
use vstd::arithmetic::power2::{pow2, lemma2_to64};
use crate::error::{ZiftError, ZiftErrorKind};

verus! {

/// The magic number of a standard Zstd frame.
pub const ZSTD_MAGIC: u32 = 0xFD2F_B528;

/// The low end of the magic numbers of skippable frames.
pub const SKIPPABLE_MAGIC_BASE: u32 = 0x184D_2A50;

/// The little-endian number in the `n` bytes of `s` from `start`.
pub open spec fn le_value(s: Seq<u8>, start: int, n: nat) -> nat
    decreases n,
{
    if n == 0 {
        0
    } else {
        s[start] as nat + 256 * le_value(s, start + 1, (n - 1) as nat)
    }
}

pub proof fn lemma_le_value_bound(s: Seq<u8>, start: int, n: nat)
    ensures
        le_value(s, start, n) < pow2(8 * n),
    decreases n,
{
    if n == 0 {
        assert(pow2(0) == 1) by {
            lemma2_to64();
        }
    } else {
        lemma_le_value_bound(s, start + 1, (n - 1) as nat);
        vstd::arithmetic::power2::lemma_pow2_adds(8, 8 * (n - 1) as nat);
        assert(pow2(8) == 256) by {
            lemma2_to64();
        }
        assert(8 + 8 * (n - 1) == 8 * n);
    }
}

/// Reads the `n`-byte little-endian number at `start`.
pub fn read_le(data: &[u8], start: usize, n: usize) -> (v: u64)
    requires
        n <= 8,
        start + n <= data@.len(),
    ensures
        v as nat == le_value(data@, start as int, n as nat),
{
    let len = data.len();
    let mut v: u64 = 0;
    let mut i: usize = n;
    proof {
        assert(pow2(64) == 0x1_0000_0000_0000_0000) by {
            lemma2_to64();
        }
    }
    while i > 0
        invariant
            n <= 8,
            start + n <= data@.len(),
            len == data@.len(),
            i <= n,
            v as nat == le_value(data@, start + i, (n - i) as nat),
            pow2(64) == 0x1_0000_0000_0000_0000,
        decreases i,
    {
        proof {
            lemma_le_value_bound(data@, start + i, (n - i) as nat);
            vstd::arithmetic::power2::lemma_pow2_adds(8 * (n - i) as nat, 8);
            assert(pow2(8) == 256) by {
                lemma2_to64();
            }
            crate::zstd::fse::lemma_pow2_increases_le(((8 * (n - i) as nat) + 8) as nat, 64);
        }
        assert(v * 256 + 255 < 0x1_0000_0000_0000_0000) by (nonlinear_arith)
            requires
                v < pow2(8 * (n - i) as nat),
                pow2(8 * (n - i) as nat) * pow2(8) == pow2((8 * (n - i) as nat + 8) as nat),
                pow2(8) == 256,
                pow2((8 * (n - i) as nat + 8) as nat) <= 0x1_0000_0000_0000_0000,
        ;
        i = i - 1;
        v = v * 256 + data[start + i] as u64;
    }
    v
}

/// Whether `magic` opens a skippable frame.
pub open spec fn is_skippable_magic(magic: nat) -> bool {
    SKIPPABLE_MAGIC_BASE <= magic < SKIPPABLE_MAGIC_BASE + 16
}

/// Bytes of the dictionary identifier that a descriptor's low two bits ask for.
pub open spec fn dict_id_size(flag: nat) -> nat {
    if flag == 0 {
        0
    } else if flag == 1 {
        1
    } else if flag == 2 {
        2
    } else {
        4
    }
}

/// Bytes of the frame content size that a descriptor asks for.
pub open spec fn content_size_bytes(fcs_flag: nat, single_segment: bool) -> nat {
    if fcs_flag == 0 {
        if single_segment {
            1
        } else {
            0
        }
    } else if fcs_flag == 1 {
        2
    } else if fcs_flag == 2 {
        4
    } else {
        8
    }
}

/// The frame header at `pos`: skippable frames before it are passed over.
/// Gives `None` with the end of the input where nothing but skippable frames
/// remains, or `Some(checksum)` with where the first block starts, where
/// `checksum` says whether the frame ends with a 4-byte checksum.
pub open spec fn frame_header_spec(data: Seq<u8>, pos: nat) -> Result<(Option<bool>, nat), ZiftErrorKind>
    decreases data.len() - pos,
{
    if pos + 4 > data.len() {
        Err(ZiftErrorKind::InvalidData { offset: pos })
    } else {
        let magic = le_value(data, pos as int, 4);
        if is_skippable_magic(magic) {
            if pos + 8 > data.len() {
                Err(ZiftErrorKind::InvalidData { offset: pos })
            } else {
                let next = pos + 8 + le_value(data, pos as int + 4, 4);
                if next > data.len() {
                    Err(ZiftErrorKind::InvalidData { offset: pos })
                } else if next == data.len() {
                    Ok((None, next))
                } else {
                    frame_header_spec(data, next)
                }
            }
        } else if magic != ZSTD_MAGIC {
            Err(ZiftErrorKind::InvalidData { offset: pos })
        } else {
            let p = pos + 4;
            if p >= data.len() {
                Err(ZiftErrorKind::InvalidData { offset: p })
            } else {
                let fhd = data[p as int] as nat;
                let single = (fhd / 32) % 2 == 1;
                if (fhd / 8) % 2 == 1 {
                    Err(ZiftErrorKind::InvalidData { offset: p })
                } else {
                    let w = p + 1 + if single {
                        0nat
                    } else {
                        1nat
                    };
                    if w > data.len() {
                        Err(ZiftErrorKind::InvalidData { offset: p + 1 })
                    } else {
                        let d = w + dict_id_size(fhd % 4);
                        if d > data.len() {
                            Err(ZiftErrorKind::InvalidData { offset: w })
                        } else {
                            let f = d + content_size_bytes(fhd / 64, single);
                            if f > data.len() {
                                Err(ZiftErrorKind::InvalidData { offset: d })
                            } else {
                                Ok((Some((fhd / 4) % 2 == 1), f))
                            }
                        }
                    }
                }
            }
        }
    }
}

/// Whether the frame header at `pos` (after any skippable frames) is cut
/// short in its frame content size field, the last field it reads.
pub open spec fn content_size_missing(data: Seq<u8>, pos: nat) -> bool
    decreases data.len() - pos,
{
    if pos + 4 > data.len() {
        false
    } else {
        let magic = le_value(data, pos as int, 4);
        if is_skippable_magic(magic) {
            if pos + 8 > data.len() {
                false
            } else {
                let next = pos + 8 + le_value(data, pos as int + 4, 4);
                if next >= data.len() {
                    false
                } else {
                    content_size_missing(data, next)
                }
            }
        } else if magic != ZSTD_MAGIC || pos + 4 >= data.len() {
            false
        } else {
            let p = pos + 4;
            let fhd = data[p as int] as nat;
            let single = (fhd / 32) % 2 == 1;
            let w = p + 1 + if single {
                0nat
            } else {
                1nat
            };
            let d = w + dict_id_size(fhd % 4);
            (fhd / 8) % 2 == 0 && d <= data.len() && d + content_size_bytes(fhd / 64, single) > data.len()
        }
    }
}

/// The explanation given for a frame header cut short in its content size.
pub open spec fn content_size_reason() -> Seq<char> {
    "truncated zstd frame content size. Fix: use a complete Zstd stream"@
}

/// Reads the frame header at `*pos`, passing over skippable frames, and
/// moves `*pos` past it. Returns whether the frame ends with a checksum, or
/// `None` where nothing but skippable frames remains.
pub fn read_frame_header(data: &[u8], pos: &mut usize) -> (r: Result<Option<bool>, ZiftError>)
    requires
        *old(pos) <= data@.len(),
    ensures
        match frame_header_spec(data@, *old(pos) as nat) {
            Ok((h, next)) => r == Ok::<Option<bool>, ZiftError>(h) && *final(pos) == next,
            Err(k) => r matches Err(e) && e@ == k,
        },
        content_size_missing(data@, *old(pos) as nat) ==> (r matches Err(ZiftError::InvalidData { reason, .. })
            && reason@ == content_size_reason()),
    decreases data@.len() - *old(pos),
{
    let start = *pos;
    if data.len() - start < 4 {
        return Err(ZiftError::invalid(start, "truncated zstd frame magic. Fix: use a complete Zstd stream"));
    }
    let magic = read_le(data, start, 4);
    if magic >= SKIPPABLE_MAGIC_BASE as u64 && magic < SKIPPABLE_MAGIC_BASE as u64 + 16 {
        if data.len() - start < 8 {
            return Err(ZiftError::invalid(start, "truncated skippable frame header. Fix: use a complete Zstd stream"));
        }
        let size = read_le(data, start + 4, 4);
        if size > (data.len() - start - 8) as u64 {
            return Err(ZiftError::invalid(start, "skippable frame exceeds data bounds. Fix: use a complete Zstd stream"));
        }
        let next = start + 8 + size as usize;
        *pos = next;
        if next == data.len() {
            return Ok(None);
        }
        return read_frame_header(data, pos);
    }
    if magic != ZSTD_MAGIC as u64 {
        return Err(ZiftError::invalid(start, "invalid zstd magic number. Fix: provide Zstd-compressed data"));
    }
    let p = start + 4;
    if p >= data.len() {
        return Err(ZiftError::invalid(p, "truncated zstd frame header descriptor. Fix: use a complete Zstd stream"));
    }
    let fhd = data[p];
    let single = (fhd / 32) % 2 == 1;
    if (fhd / 8) % 2 == 1 {
        return Err(ZiftError::invalid(p, "reserved bit set in zstd frame header descriptor. Fix: use a valid Zstd stream"));
    }
    let window_size: usize = if single {
        0
    } else {
        1
    };
    if window_size > data.len() - (p + 1) {
        return Err(ZiftError::invalid(p + 1, "truncated zstd window descriptor. Fix: use a complete Zstd stream"));
    }
    let w = p + 1 + window_size;
    let dict_flag = fhd % 4;
    let dict_size: usize = if dict_flag == 0 {
        0
    } else if dict_flag == 1 {
        1
    } else if dict_flag == 2 {
        2
    } else {
        4
    };
    if dict_size > data.len() - w {
        return Err(ZiftError::invalid(w, "truncated zstd dictionary id. Fix: use a complete Zstd stream"));
    }
    let d = w + dict_size;
    let fcs_flag = fhd / 64;
    let fcs_size: usize = if fcs_flag == 0 {
        if single {
            1
        } else {
            0
        }
    } else if fcs_flag == 1 {
        2
    } else if fcs_flag == 2 {
        4
    } else {
        8
    };
    if fcs_size > data.len() - d {
        return Err(ZiftError::invalid(d, "truncated zstd frame content size. Fix: use a complete Zstd stream"));
    }
    *pos = d + fcs_size;
    Ok(Some((fhd / 4) % 2 == 1))
}

/// Parses the frame header at `*pos` and moves `*pos` past it; skippable
/// frames before it are passed over. Returns `false` where the input holds
/// nothing but skippable frames from `*pos` on.
pub fn parse_frame_header(data: &[u8], pos: &mut usize) -> (r: Result<bool, ZiftError>)
    requires
        *old(pos) <= data@.len(),
    ensures
        match frame_header_spec(data@, *old(pos) as nat) {
            Ok((h, next)) => r == Ok::<bool, ZiftError>(h is Some) && *final(pos) == next,
            Err(k) => r matches Err(e) && e@ == k,
        },
        content_size_missing(data@, *old(pos) as nat) ==> (r matches Err(ZiftError::InvalidData { reason, .. })
            && reason@ == content_size_reason()),
{
    match read_frame_header(data, pos) {
        Ok(h) => Ok(h.is_some()),
        Err(e) => Err(e),
    }
}

/// The type of a Zstd block, from bits 1-2 of its header.
#[derive(Debug, Clone, Copy, PartialEq, Eq, Structural)]
pub enum BlockType {
    Raw,
    Rle,
    Compressed,
    Reserved,
}

impl BlockType {
    /// The block type with number `v`, `None` above 3.
    pub fn from_u8(v: u8) -> (r: Option<BlockType>)
        ensures
            v == 0 ==> r == Some(BlockType::Raw),
            v == 1 ==> r == Some(BlockType::Rle),
            v == 2 ==> r == Some(BlockType::Compressed),
            v == 3 ==> r == Some(BlockType::Reserved),
            v > 3 ==> r is None,
    {
        if v == 0 {
            Some(BlockType::Raw)
        } else if v == 1 {
            Some(BlockType::Rle)
        } else if v == 2 {
            Some(BlockType::Compressed)
        } else if v == 3 {
            Some(BlockType::Reserved)
        } else {
            None
        }
    }
}

} // verus!
