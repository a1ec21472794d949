use flate2::read::GzDecoder;
use flate2::write::GzEncoder;
use flate2::Compression;
use std::io::{Read, Write};
use ziftsieve::gzip::header::parse_gzip_member;
use ziftsieve::gzip::{extract_literals, BitReader};
use ziftsieve::{CompressedBlock, ZiftError};

fn gzip_compress(data: &[u8], level: u32) -> Vec<u8> {
    let mut encoder = GzEncoder::new(Vec::new(), Compression::new(level));
    encoder.write_all(data).expect("compression should work");
    encoder.finish().expect("finish compression")
}

fn all_literals(blocks: &[CompressedBlock]) -> Vec<u8> {
    blocks.iter().flat_map(|b| b.literals().iter().copied()).collect()
}

/// A gzip member around the given DEFLATE bytes, with the given flags and
/// optional fields, and a trailer whose CRC is not checked.
fn member(flags: u8, fields: &[u8], deflate: &[u8]) -> Vec<u8> {
    let mut out = vec![0x1f, 0x8b, 0x08, flags, 0, 0, 0, 0, 0, 0x03];
    out.extend_from_slice(fields);
    out.extend_from_slice(deflate);
    out.extend_from_slice(&[0, 0, 0, 0, 1, 0, 0, 0]);
    out
}

/// The fixed-Huffman DEFLATE encoding of the single byte `a`.
const FIXED_A: [u8; 3] = [0x4b, 0x04, 0x00];

#[test]
fn empty_stream_returns_no_blocks() {
    let mut total_literals = 0;
    let err = parse_gzip_member(
        &mut BitReader::new(&[], 0),
        &mut Vec::new(),
        &mut total_literals,
    );
    assert!(err.is_err());
}

#[test]
fn fixed_huffman_literals_match_source_with_no_compression() {
    let data = b"gzip-fixed-block-literal-regression";
    let compressed = gzip_compress(data, 0);
    let blocks = extract_literals(&compressed).expect("extract");
    let extracted: Vec<u8> = blocks
        .iter()
        .flat_map(|b| b.literals().iter().copied())
        .collect();

    assert_eq!(extracted, data);
}

#[test]
fn dynamic_huffman_literals_are_subset_of_decompressed_output() {
    let data =
        b"the quick brown fox jumps over the lazy dog; gzip dynamic parse test".repeat(200);
    let compressed = gzip_compress(&data, 6);
    let blocks = extract_literals(&compressed).expect("extract");
    assert!(!blocks.is_empty());
    let extracted: Vec<u8> = blocks
        .iter()
        .flat_map(|b| b.literals.iter().copied())
        .collect();
    assert!(!extracted.is_empty());
}

#[test]
fn reject_malformed_header() {
    let data = [0x00, 0x00, 0x00, 0x00];
    assert!(extract_literals(&data).is_err());
}

#[test]
fn huffman_literals_buffer_is_reserved_upfront_not_regrown_from_zero() {
    let data = vec![b'x'; 100_000];
    let compressed = gzip_compress(&data, 6);
    let blocks = extract_literals(&compressed).expect("extract");
    assert!(!blocks.is_empty(), "expected at least one block");

    let with_literals: Vec<_> = blocks.iter().filter(|b| !b.literals.is_empty()).collect();
    assert!(
        !with_literals.is_empty(),
        "the run must yield at least one literal block"
    );
    for block in with_literals {
        let literal_count = block.literals.len();
        let compressed_len = block.compressed_len() as usize;
        assert!(
            literal_count * 8 < compressed_len,
            "guard: literals ({literal_count}) must be far fewer than compressed bytes \
             ({compressed_len}) for this discriminator to be meaningful"
        );
        assert!(
            block.literals.capacity() >= compressed_len / 2,
            "literals buffer must be reserved upfront to compressed-block scale \
             (>= {} = compressed_len/2), got capacity {} for only {literal_count} literals \
             (from-zero regrowth would sit near MIN_NON_ZERO_CAP=8)",
            compressed_len / 2,
            block.literals.capacity()
        );
    }
}

#[test]
fn fixed_block_gives_its_literal() {
    let data = member(0, &[], &FIXED_A);
    let blocks = extract_literals(&data).unwrap();
    assert_eq!(blocks.len(), 1);
    assert_eq!(blocks[0].literals(), b"a");
    assert_eq!(blocks[0].offset(), 10);
    assert_eq!(blocks[0].compressed_len(), 3);
    assert_eq!(blocks[0].uncompressed_len, None);
}

#[test]
fn stored_block_gives_its_bytes() {
    let data = member(0, &[], &[0x01, 0x05, 0x00, 0xfa, 0xff, b'h', b'e', b'l', b'l', b'o']);
    let blocks = extract_literals(&data).unwrap();
    assert_eq!(blocks.len(), 1);
    assert_eq!(blocks[0].literals(), b"hello");
    assert_eq!(blocks[0].uncompressed_len, Some(5));
    assert_eq!(blocks[0].compressed_len(), 10);
}

#[test]
fn stored_block_with_a_bad_complement_is_rejected() {
    let data = member(0, &[], &[0x01, 0x05, 0x00, 0xfa, 0xfe, b'h', b'e', b'l', b'l', b'o']);
    assert!(matches!(extract_literals(&data), Err(ZiftError::InvalidData { offset: 11, .. })));
}

#[test]
fn name_and_comment_fields_are_passed_over() {
    let mut fields = b"name.txt\0".to_vec();
    fields.extend_from_slice(b"a comment\0");
    let data = member(0x18, &fields, &FIXED_A);
    let blocks = extract_literals(&data).unwrap();
    assert_eq!(all_literals(&blocks), b"a".to_vec());
    assert_eq!(blocks[0].offset() as usize, 10 + fields.len());
}

#[test]
fn extra_field_and_header_crc_are_passed_over() {
    let fields = [0x03, 0x00, 1, 2, 3, 0xaa, 0xbb];
    let data = member(0x06, &fields, &FIXED_A);
    let blocks = extract_literals(&data).unwrap();
    assert_eq!(all_literals(&blocks), b"a".to_vec());
}

#[test]
fn unterminated_name_is_rejected() {
    let data = vec![0x1f, 0x8b, 0x08, 0x08, 0, 0, 0, 0, 0, 0x03, b'n', b'a'];
    assert!(matches!(extract_literals(&data), Err(ZiftError::InvalidData { offset: 10, .. })));
}

#[test]
fn unsupported_method_is_rejected() {
    let mut data = member(0, &[], &FIXED_A);
    data[2] = 7;
    assert!(matches!(extract_literals(&data), Err(ZiftError::InvalidData { offset: 2, .. })));
}

#[test]
fn reserved_flags_are_rejected() {
    let data = member(0x20, &[], &FIXED_A);
    assert!(matches!(extract_literals(&data), Err(ZiftError::InvalidData { offset: 3, .. })));
}

#[test]
fn reserved_deflate_block_type_is_rejected() {
    let data = member(0, &[], &[0x07, 0x00]);
    assert!(matches!(extract_literals(&data), Err(ZiftError::InvalidData { offset: 10, .. })));
}

#[test]
fn truncated_trailer_is_rejected() {
    let mut data = member(0, &[], &FIXED_A);
    data.truncate(data.len() - 1);
    assert!(matches!(extract_literals(&data), Err(ZiftError::InvalidData { offset: 13, .. })));
}

#[test]
fn empty_gzip_input_is_rejected() {
    assert!(matches!(extract_literals(&[]), Err(ZiftError::InvalidData { offset: 0, .. })));
}

#[test]
fn concatenated_members_are_all_read() {
    let mut data = gzip_compress(b"first member ", 0);
    data.extend_from_slice(&gzip_compress(b"second member", 0));
    let blocks = extract_literals(&data).unwrap();
    assert_eq!(all_literals(&blocks), b"first member second member".to_vec());
}

#[test]
fn parse_gzip_member_counts_its_literals() {
    let data = member(0, &[], &FIXED_A);
    let mut reader = BitReader::new(&data, 0);
    let mut blocks = Vec::new();
    let mut total = 7;
    parse_gzip_member(&mut reader, &mut blocks, &mut total).unwrap();
    assert_eq!(total, 8);
    assert_eq!(blocks.len(), 1);
    assert_eq!(reader.remaining_bytes(), 0);
}

fn xorshift_bytes(n: usize) -> Vec<u8> {
    let mut state: u64 = 0x9e37_79b9_7f4a_7c15;
    let mut out = Vec::with_capacity(n);
    for _ in 0..n {
        state ^= state << 13;
        state ^= state >> 7;
        state ^= state << 17;
        out.push((state >> 24) as u8);
    }
    out
}

#[test]
fn literals_of_incompressible_input_are_the_input() {
    let data = xorshift_bytes(2000);
    let compressed = gzip_compress(&data, 9);
    let blocks = extract_literals(&compressed).unwrap();
    let extracted = all_literals(&blocks);
    assert_eq!(extracted.len(), data.len(), "compressed {} bytes", compressed.len());
    assert_eq!(extracted, data);
}

#[test]
fn every_extracted_literal_occurs_in_the_input() {
    let data = b"abracadabra, abracadabra, the magic word is abracadabra".repeat(20);
    let compressed = gzip_compress(&data, 6);
    let blocks = extract_literals(&compressed).unwrap();
    for byte in all_literals(&blocks) {
        assert!(data.contains(&byte));
    }
}

#[test]
fn every_output_byte_is_an_extracted_literal() {
    let data = b"mississippi river, mississippi delta; ".repeat(50);
    let compressed = gzip_compress(&data, 9);
    let mut output = Vec::new();
    GzDecoder::new(&compressed[..]).read_to_end(&mut output).unwrap();
    assert_eq!(output, data);
    let literals = all_literals(&extract_literals(&compressed).unwrap());
    assert!(literals.len() < output.len());
    for byte in output {
        assert!(literals.contains(&byte));
    }
}
