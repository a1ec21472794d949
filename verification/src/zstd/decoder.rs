//! Literals sections of compressed Zstd blocks.
//!
//! A compressed block opens with its literals section: a header whose first
//! byte gives the section type (raw, RLE, Huffman-compressed, or compressed
//! with the previous block's tree) and the size format, then the literals.
//! The sequences section after it is not read.
use vstd::prelude::*;
use crate::error::{ZiftError, ZiftErrorKind};
use super::frame::{le_value, read_le};
use super::huffman::{decode_literals, decode_literals_spec};

verus! {

/// Header bytes, size width in bits and stream count of a compressed
/// literals section with size format `sf`.
pub open spec fn compressed_layout(sf: nat) -> (nat, nat, u8) {
    if sf == 0 {
        (3, 10, 1)
    } else if sf == 1 {
        (3, 10, 4)
    } else if sf == 2 {
        (4, 14, 4)
    } else {
        (5, 18, 4)
    }
}

/// Header bytes of a raw or RLE literals section with size format `sf`.
pub open spec fn plain_header_len(sf: nat) -> nat {
    if sf % 2 == 0 {
        1
    } else if sf == 1 {
        2
    } else {
        3
    }
}

/// The size a raw or RLE literals header of `hdr` bytes gives.
pub open spec fn plain_size(block: Seq<u8>, hdr: nat) -> nat {
    let b0 = block[0] as nat;
    if hdr == 1 {
        b0 / 8
    } else if hdr == 2 {
        b0 / 16 + 16 * block[1] as nat
    } else {
        b0 / 16 + 16 * block[1] as nat + 4096 * block[2] as nat
    }
}

/// The literals of the literals section that opens `block`: raw literals
/// are copied, an RLE byte is repeated, Huffman-compressed literals are
/// decoded; a section that reuses the previous block's tree is refused.
pub open spec fn literals_section_spec(block: Seq<u8>) -> Result<Seq<u8>, ZiftErrorKind> {
    if block.len() == 0 {
        Err(ZiftErrorKind::InvalidData { offset: 0 })
    } else {
        let b0 = block[0] as nat;
        let ls_type = b0 % 4;
        let sf = (b0 / 4) % 4;
        if ls_type == 3 {
            Err(ZiftErrorKind::InvalidData { offset: 0 })
        } else if ls_type <= 1 {
            let hdr = plain_header_len(sf);
            if hdr > block.len() {
                Err(ZiftErrorKind::InvalidData { offset: 0 })
            } else {
                let size = plain_size(block, hdr);
                if ls_type == 0 {
                    if hdr + size > block.len() {
                        Err(ZiftErrorKind::InvalidData { offset: hdr })
                    } else {
                        Ok(block.subrange(hdr as int, (hdr + size) as int))
                    }
                } else if hdr + 1 > block.len() {
                    Err(ZiftErrorKind::InvalidData { offset: hdr })
                } else {
                    Ok(Seq::new(size, |i: int| block[hdr as int]))
                }
            }
        } else {
            let (hdr, bits, streams) = compressed_layout(sf);
            if hdr > block.len() {
                Err(ZiftErrorKind::InvalidData { offset: 0 })
            } else {
                let v = le_value(block, 0, hdr) / 16;
                let regen = v % vstd::arithmetic::power2::pow2(bits);
                let comp = (v / vstd::arithmetic::power2::pow2(bits)) % vstd::arithmetic::power2::pow2(bits);
                if hdr + comp > block.len() {
                    Err(ZiftErrorKind::InvalidData { offset: hdr })
                } else {
                    match decode_literals_spec(block.subrange(hdr as int, (hdr + comp) as int), regen, streams) {
                        None => Err(ZiftErrorKind::InvalidData { offset: hdr }),
                        Some(l) => Ok(l),
                    }
                }
            }
        }
    }
}

/// A literals section is refused only as invalid data, at an offset
/// within it, and gives at most 1 MiB of literals.
pub proof fn lemma_section_bounds(block: Seq<u8>)
    ensures
        literals_section_spec(block) matches Err(k) ==> (k matches ZiftErrorKind::InvalidData { offset } && offset <= block.len()),
        literals_section_spec(block) matches Ok(l) ==> l.len() <= 0x10_0000,
{
}

/// The explanation given for a literals section that reuses an earlier
/// block's Huffman tree.
pub open spec fn treeless_reason() -> Seq<char> {
    "treeless compressed literals are not supported (they reuse an earlier block's Huffman tree). Fix: index the stream from its first block"@
}

/// Extracts the literals of the literals section that opens a compressed
/// block.
pub fn extract_literals_from_block(data: &[u8]) -> (r: Result<Vec<u8>, ZiftError>)
    ensures
        match literals_section_spec(data@) {
            Ok(l) => r matches Ok(v) && v@ == l,
            Err(k) => r matches Err(e) && e@ == k,
        },
        data@.len() > 0 && data@[0] % 4 == 3 ==> (r matches Err(ZiftError::InvalidData { reason, .. })
            && reason@ == treeless_reason()),
{
    if data.len() == 0 {
        return Err(ZiftError::invalid(0, "empty zstd literals section. Fix: use a complete Zstd stream"));
    }
    let b0 = data[0];
    let ls_type = b0 % 4;
    let sf = (b0 / 4) % 4;
    if ls_type == 3 {
        return Err(
            ZiftError::invalid(
                0,
                "treeless compressed literals are not supported (they reuse an earlier block's Huffman tree). Fix: index the stream from its first block",
            ),
        );
    }
    if ls_type <= 1 {
        let hdr: usize = if sf % 2 == 0 {
            1
        } else if sf == 1 {
            2
        } else {
            3
        };
        if hdr > data.len() {
            return Err(ZiftError::invalid(0, "truncated zstd literals header. Fix: use a complete Zstd stream"));
        }
        let size: usize = if hdr == 1 {
            (b0 / 8) as usize
        } else if hdr == 2 {
            (b0 / 16) as usize + 16 * (data[1] as usize)
        } else {
            (b0 / 16) as usize + 16 * (data[1] as usize) + 4096 * (data[2] as usize)
        };
        if ls_type == 0 {
            if size > data.len() - hdr {
                return Err(ZiftError::invalid(hdr, "raw zstd literals exceed block bounds. Fix: use a complete Zstd stream"));
            }
            let mut out: Vec<u8> = Vec::with_capacity(size);
            out.extend_from_slice(&data[hdr..hdr + size]);
            assert(out@ =~= data@.subrange(hdr as int, (hdr + size) as int));
            return Ok(out);
        }
        if hdr >= data.len() {
            return Err(ZiftError::invalid(hdr, "truncated zstd RLE literals. Fix: use a complete Zstd stream"));
        }
        let byte = data[hdr];
        let mut out: Vec<u8> = Vec::with_capacity(size);
        let mut i: usize = 0;
        while i < size
            invariant
                i <= size,
                out@.len() == i,
                forall|j: int| 0 <= j < i ==> #[trigger] out@[j] == byte,
            decreases size - i,
        {
            out.push(byte);
            i = i + 1;
        }
        assert(out@ =~= Seq::new(size as nat, |j: int| data@[hdr as int]));
        return Ok(out);
    }
    let (hdr, modulus, streams): (usize, u64, u8) = if sf == 0 {
        (3, 1024, 1)
    } else if sf == 1 {
        (3, 1024, 4)
    } else if sf == 2 {
        (4, 16384, 4)
    } else {
        (5, 262144, 4)
    };
    proof {
        vstd::arithmetic::power2::lemma2_to64();
    }
    if hdr > data.len() {
        return Err(ZiftError::invalid(0, "truncated zstd compressed literals header. Fix: use a complete Zstd stream"));
    }
    let v = read_le(data, 0, hdr) / 16;
    let regen = (v % modulus) as usize;
    let comp = ((v / modulus) % modulus) as usize;
    if comp > data.len() - hdr {
        return Err(
            ZiftError::invalid(hdr, "compressed zstd literals exceed block bounds. Fix: use a complete Zstd stream"),
        );
    }
    match decode_literals(&data[hdr..hdr + comp], regen, streams) {
        Some(l) => Ok(l),
        None => Err(ZiftError::invalid(hdr, "invalid Huffman-compressed zstd literals. Fix: use a valid Zstd stream")),
    }
}


/// The header of a raw (`kind` 0) or RLE (`kind` 1) literals section of
/// `n` literals in the Zstd format: one byte for sizes below 32 (size in the
/// top five bits), two bytes for sizes below 4096 (size format 01: the low
/// four bits of the size in the top of the first byte, the next eight bits in
/// the second), three bytes below 2^20 (size format 11: then the top eight
/// bits in the third).
pub open spec fn plain_header(kind: nat, n: nat, width: nat) -> Seq<u8> {
    if width == 1 {
        seq![(kind + 8 * n) as u8]
    } else if width == 2 {
        seq![(kind + 4 + 16 * (n % 16)) as u8, (n / 16) as u8]
    } else {
        seq![(kind + 12 + 16 * (n % 16)) as u8, ((n / 16) % 256) as u8, (n / 4096) as u8]
    }
}

/// A raw literals section gives exactly the `n` bytes after its header,
/// whichever size format the header uses and whatever follows them.
pub proof fn law_raw_section_gives_its_bytes(n: nat, width: nat, lits: Seq<u8>, rest: Seq<u8>)
    requires
        1 <= width <= 3,
        width == 1 ==> n < 32,
        width == 2 ==> n < 4096,
        width == 3 ==> n < 0x10_0000,
        lits.len() == n,
    ensures
        literals_section_spec(plain_header(0, n, width) + lits + rest) == Ok::<Seq<u8>, ZiftErrorKind>(lits),
{
    let h = plain_header(0, n, width);
    let block = h + lits + rest;
    assert(h.len() == width);
    assert(block[0] == h[0]);
    if width >= 2 {
        assert(block[1] == h[1]);
    }
    if width == 3 {
        assert(block[2] == h[2]);
    }
    assert(plain_header_len(((block[0] as nat) / 4) % 4) == width);
    assert(plain_size(block, width) == n);
    assert(block.subrange(width as int, (width + n) as int) =~= lits);
}

/// An RLE literals section gives its one byte after the header, repeated
/// `n` times, whichever size format the header uses.
pub proof fn law_rle_section_repeats_its_byte(n: nat, width: nat, x: u8, rest: Seq<u8>)
    requires
        1 <= width <= 3,
        width == 1 ==> n < 32,
        width == 2 ==> n < 4096,
        width == 3 ==> n < 0x10_0000,
    ensures
        literals_section_spec(plain_header(1, n, width) + seq![x] + rest) == Ok::<Seq<u8>, ZiftErrorKind>(
            Seq::new(n, |i: int| x),
        ),
{
    let h = plain_header(1, n, width);
    let block = h + seq![x] + rest;
    assert(h.len() == width);
    assert(block[0] == h[0]);
    if width >= 2 {
        assert(block[1] == h[1]);
    }
    if width == 3 {
        assert(block[2] == h[2]);
    }
    assert(block[width as int] == x);
    assert(plain_header_len(((block[0] as nat) / 4) % 4) == width);
    assert(plain_size(block, width) == n);
    assert(Seq::new(n, |i: int| block[width as int]) =~= Seq::new(n, |i: int| x));
}

} // verus!
