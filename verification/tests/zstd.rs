use ziftsieve::zstd::decoder::extract_literals_from_block;
use ziftsieve::zstd::frame::{parse_frame_header, BlockType};
use ziftsieve::ZiftError;

#[test]
fn test_parse_frame_header_invalid_magic() {
    let data = [0x00, 0x00, 0x00, 0x00];
    let mut pos = 0;
    assert!(parse_frame_header(&data, &mut pos).is_err());
}

#[test]
fn parse_frame_header_returns_false_when_stream_is_only_a_skippable_frame() {
    let mut data = vec![0x50, 0x2A, 0x4D, 0x18];
    data.extend_from_slice(&[0x04, 0x00, 0x00, 0x00]);
    data.extend_from_slice(b"skip");
    let mut pos = 0;
    let has_standard_frame =
        parse_frame_header(&data, &mut pos).expect("skippable-only stream is valid");
    assert!(!has_standard_frame);
    assert_eq!(pos, data.len());
}

#[test]
fn extract_literals_of_skippable_only_stream_is_empty_not_error() {
    let mut data = vec![0x50, 0x2A, 0x4D, 0x18];
    data.extend_from_slice(&[0x04, 0x00, 0x00, 0x00]);
    data.extend_from_slice(b"skip");
    let blocks =
        ziftsieve::zstd::extract_literals(&data).expect("skippable-only stream yields no blocks");
    assert!(blocks.is_empty());
}

#[test]
fn parse_standard_frame_header_rejects_truncated_content_size() {
    let data = [0x28, 0xB5, 0x2F, 0xFD, 0b1110_0000];
    let mut pos = 0;
    let result = parse_frame_header(&data, &mut pos);
    assert!(matches!(
        result,
        Err(ZiftError::InvalidData { ref reason, .. }) if reason.contains("frame content size")
    ));
}

#[test]
fn test_block_type_parsing() {
    assert_eq!(BlockType::from_u8(0), Some(BlockType::Raw));
    assert_eq!(BlockType::from_u8(1), Some(BlockType::Rle));
    assert_eq!(BlockType::from_u8(2), Some(BlockType::Compressed));
    assert_eq!(BlockType::from_u8(3), Some(BlockType::Reserved));
    assert_eq!(BlockType::from_u8(4), None);
}

#[test]
fn test_treeless_compressed_literals_error() {
    let data = [0x03];
    let result = extract_literals_from_block(&data);
    assert!(
        matches!(result, Err(ZiftError::InvalidData { ref reason, .. }) if reason.contains("treeless"))
    );
}

/// A frame with a single-segment header, one-byte content size, no
/// checksum, then the given blocks.
fn frame(blocks: &[u8]) -> Vec<u8> {
    let mut data = vec![0x28, 0xB5, 0x2F, 0xFD, 0b0010_0000, 0x00];
    data.extend_from_slice(blocks);
    data
}

#[test]
fn parse_frame_header_moves_past_the_header() {
    let data = frame(&[]);
    let mut pos = 0;
    assert_eq!(parse_frame_header(&data, &mut pos).unwrap(), true);
    assert_eq!(pos, 6);
}

#[test]
fn parse_frame_header_rejects_the_reserved_bit() {
    let data = [0x28, 0xB5, 0x2F, 0xFD, 0b0010_1000, 0x00];
    let mut pos = 0;
    assert!(matches!(
        parse_frame_header(&data, &mut pos),
        Err(ZiftError::InvalidData { offset: 4, .. })
    ));
}

#[test]
fn raw_block_literals_are_its_bytes() {
    // Last raw block of 3 bytes: header (3 << 3) | (0 << 1) | 1.
    let data = frame(&[0x19, 0x00, 0x00, b'a', b'b', b'c']);
    let blocks = ziftsieve::zstd::extract_literals(&data).unwrap();
    assert_eq!(blocks.len(), 1);
    assert_eq!(blocks[0].literals(), b"abc");
    assert_eq!(blocks[0].offset(), 6);
    assert_eq!(blocks[0].compressed_len(), 6);
    assert_eq!(blocks[0].uncompressed_len, Some(3));
}

#[test]
fn rle_block_literals_repeat_its_byte() {
    // Last RLE block of 4 bytes: header (4 << 3) | (1 << 1) | 1.
    let data = frame(&[0x23, 0x00, 0x00, b'z']);
    let blocks = ziftsieve::zstd::extract_literals(&data).unwrap();
    assert_eq!(blocks.len(), 1);
    assert_eq!(blocks[0].literals(), b"zzzz");
}

#[test]
fn reserved_block_type_is_rejected() {
    let data = frame(&[0x07, 0x00, 0x00]);
    assert!(matches!(
        ziftsieve::zstd::extract_literals(&data),
        Err(ZiftError::InvalidData { offset: 6, .. })
    ));
}

#[test]
fn truncated_block_is_rejected() {
    let data = frame(&[0x19, 0x00, 0x00, b'a']);
    assert!(matches!(
        ziftsieve::zstd::extract_literals(&data),
        Err(ZiftError::InvalidData { offset: 9, .. })
    ));
}

#[test]
fn empty_zstd_input_is_rejected() {
    assert!(matches!(
        ziftsieve::zstd::extract_literals(&[]),
        Err(ZiftError::InvalidData { offset: 0, .. })
    ));
}

#[test]
fn raw_literals_section_is_copied() {
    // Raw literals, 1-byte header, size 2: (2 << 3) | 0.
    let data = [0x10, b'h', b'i', 0xff];
    assert_eq!(extract_literals_from_block(&data).unwrap(), b"hi".to_vec());
}

#[test]
fn rle_literals_section_is_repeated() {
    // RLE literals, 1-byte header, size 5: (5 << 3) | 1.
    let data = [0x29, b'q'];
    assert_eq!(extract_literals_from_block(&data).unwrap(), b"qqqqq".to_vec());
}

#[test]
fn huffman_literals_section_is_decoded() {
    // Compressed literals, one stream, 3-byte header: type 2, size format
    // 0, regenerated size 3, compressed size 4 (tree 3 bytes + 1 stream byte).
    let v: u32 = 2 | (3 << 4) | (4 << 14);
    let mut data = vec![v as u8, (v >> 8) as u8, (v >> 16) as u8];
    data.extend_from_slice(&[0x82, 0x22, 0x20, 0b0100_0110]);
    assert_eq!(extract_literals_from_block(&data).unwrap(), vec![0, 1, 2]);
}

#[test]
fn compressed_stream_roundtrip_collects_every_literal_of_raw_input() {
    let data: Vec<u8> = (0..5000u32).map(|i| (i.wrapping_mul(2654435761) >> 13) as u8).collect();
    let compressed = zstd::encode_all(&data[..], 1).unwrap();
    let blocks = ziftsieve::zstd::extract_literals(&compressed).unwrap();
    assert!(!blocks.is_empty());
    let total: usize = blocks.iter().map(|b| b.literals().len()).sum();
    assert!(total > 0);
}
