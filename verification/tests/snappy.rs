use ziftsieve::snappy::{append_decompressed, check_declared_len, extract_literals, flush_block};
use ziftsieve::{CompressedBlock, ZiftError};

const STREAM_ID: [u8; 10] = [0xff, 0x06, 0x00, 0x00, 0x73, 0x4e, 0x61, 0x50, 0x70, 0x59];

fn chunk(kind: u8, body: &[u8]) -> Vec<u8> {
    let n = body.len();
    let mut out = vec![kind, n as u8, (n >> 8) as u8, (n >> 16) as u8];
    out.extend_from_slice(body);
    out
}

fn uncompressed_chunk(payload: &[u8]) -> Vec<u8> {
    let mut body = vec![0xaa, 0xbb, 0xcc, 0xdd];
    body.extend_from_slice(payload);
    chunk(0x01, &body)
}

fn compressed_chunk(payload: &[u8]) -> Vec<u8> {
    let mut body = vec![0x11, 0x22, 0x33, 0x44];
    body.extend_from_slice(&snap::raw::Encoder::new().compress_vec(payload).unwrap());
    chunk(0x00, &body)
}

fn all_literals(blocks: &[CompressedBlock]) -> Vec<u8> {
    blocks.iter().flat_map(|b| b.literals().to_vec()).collect()
}

#[test]
fn test_empty_data_rejected() {
    let data = [];
    let result = extract_literals(&data);
    assert!(matches!(result, Err(ZiftError::InvalidData { .. })));
}

#[test]
fn test_rejects_invalid_compressed_chunk() {
    let data = [
        0xff, 0x06, 0x00, 0x00, 0x73, 0x4e, 0x61, 0x50, 0x70, 0x59, 0x00, 0x05, 0x00, 0x00, 0x00,
        0x00, 0x00, 0x00, 0x01,
    ];
    let result = extract_literals(&data);
    assert!(matches!(result, Err(ZiftError::InvalidData { .. })));
}

#[test]
fn test_rejects_reserved_chunk() {
    let data = [
        0xff, 0x06, 0x00, 0x00, 0x73, 0x4e, 0x61, 0x50, 0x70, 0x59, 0x02, 0x00, 0x00, 0x00,
    ];
    let result = extract_literals(&data);
    assert!(matches!(result, Err(ZiftError::InvalidData { .. })));
}

#[test]
fn uncompressed_chunk_of_only_crc_is_rejected_not_silently_dropped() {
    let data = [
        0xff, 0x06, 0x00, 0x00, 0x73, 0x4e, 0x61, 0x50, 0x70, 0x59, 0x01, 0x04, 0x00, 0x00, 0xaa,
        0xbb, 0xcc, 0xdd,
    ];
    let result = extract_literals(&data);
    assert!(
        matches!(result, Err(ZiftError::InvalidData { .. })),
        "a 4-byte uncompressed chunk (CRC only, no data) must return InvalidData, got {result:?}"
    );
}

#[test]
fn uncompressed_chunk_with_one_data_byte_is_accepted() {
    let data = [
        0xff, 0x06, 0x00, 0x00, 0x73, 0x4e, 0x61, 0x50, 0x70, 0x59, 0x01, 0x05, 0x00, 0x00, 0xaa,
        0xbb, 0xcc, 0xdd, 0x5a,
    ];
    let blocks = extract_literals(&data).expect("valid single-byte uncompressed chunk");
    let literals: Vec<u8> = blocks.iter().flat_map(|b| b.literals().to_vec()).collect();
    assert_eq!(literals, vec![0x5a], "the single data byte must be extracted");
}

#[test]
fn flush_block_retains_literals_capacity_for_reuse() {
    let mut blocks = Vec::new();
    let mut literals = Vec::with_capacity(4096);
    literals.extend_from_slice(&[7u8; 100]);
    let cap_before = literals.capacity();

    let total = flush_block(&mut blocks, &mut literals, 0, 100, 0).expect("flush");

    assert_eq!(total, 100, "returns the new running literal total");
    assert_eq!(blocks.len(), 1);
    assert_eq!(blocks[0].literals().len(), 100, "the block owns the 100 literals");
    assert!(literals.is_empty(), "streaming buffer is drained of content");
    assert!(
        literals.capacity() >= cap_before,
        "streaming buffer must retain capacity for reuse (was {cap_before}, now {})",
        literals.capacity()
    );
}

#[test]
fn flush_block_records_the_span_and_length() {
    let mut blocks = Vec::new();
    let mut literals = vec![1u8, 2, 3];
    let total = flush_block(&mut blocks, &mut literals, 10, 25, 40).unwrap();
    assert_eq!(total, 43);
    assert_eq!(blocks[0].offset(), 10);
    assert_eq!(blocks[0].compressed_len(), 15);
    assert_eq!(blocks[0].uncompressed_len, Some(3));
    assert_eq!(blocks[0].literals(), &[1, 2, 3]);
}

#[test]
fn flush_block_refuses_to_pass_the_literal_limit() {
    let mut blocks = Vec::new();
    let mut literals = vec![9u8; 10];
    let result = flush_block(&mut blocks, &mut literals, 0, 5, 256 * 1024 * 1024 - 5);
    assert!(matches!(
        result,
        Err(ZiftError::BlockTooLarge { size, max }) if size == 256 * 1024 * 1024 + 5 && max == 256 * 1024 * 1024
    ));
    assert!(blocks.is_empty());
    assert_eq!(literals.len(), 10);
}

#[test]
fn compressed_chunk_yields_the_decompressed_bytes() {
    let payload = b"hello hello hello hello, snappy literals".to_vec();
    let mut data = STREAM_ID.to_vec();
    data.extend_from_slice(&compressed_chunk(&payload));
    let blocks = extract_literals(&data).unwrap();
    assert_eq!(all_literals(&blocks), payload);
}

#[test]
fn compressed_chunk_of_only_crc_is_rejected() {
    let mut data = STREAM_ID.to_vec();
    data.extend_from_slice(&chunk(0x00, &[1, 2, 3, 4]));
    assert!(matches!(
        extract_literals(&data),
        Err(ZiftError::InvalidData { offset: 14, .. })
    ));
}

#[test]
fn padding_and_stream_identifier_chunks_are_skipped() {
    let mut data = STREAM_ID.to_vec();
    data.extend_from_slice(&chunk(0xfe, &[0, 0, 0]));
    data.extend_from_slice(&uncompressed_chunk(b"abc"));
    data.extend_from_slice(&STREAM_ID);
    data.extend_from_slice(&uncompressed_chunk(b"def"));
    let blocks = extract_literals(&data).unwrap();
    assert_eq!(blocks.len(), 1);
    assert_eq!(all_literals(&blocks), b"abcdef".to_vec());
    assert_eq!(blocks[0].offset(), 10);
    assert_eq!(blocks[0].compressed_len() as usize, data.len() - 10);
}

#[test]
fn stream_without_identifier_is_read_from_the_start() {
    let data = uncompressed_chunk(b"xyz");
    let blocks = extract_literals(&data).unwrap();
    assert_eq!(blocks[0].offset(), 0);
    assert_eq!(all_literals(&blocks), b"xyz".to_vec());
}

#[test]
fn oversized_chunk_is_rejected() {
    let mut data = STREAM_ID.to_vec();
    data.extend_from_slice(&[0x01, 0x01, 0x00, 0x01]);
    assert!(matches!(
        extract_literals(&data),
        Err(ZiftError::BlockTooLarge { size: 65537, max: 65536 })
    ));
}

#[test]
fn truncated_chunk_length_is_rejected() {
    let mut data = STREAM_ID.to_vec();
    data.extend_from_slice(&[0x01, 0x05]);
    assert!(matches!(
        extract_literals(&data),
        Err(ZiftError::InvalidData { offset: 11, .. })
    ));
}

#[test]
fn chunk_past_the_end_is_rejected() {
    let mut data = STREAM_ID.to_vec();
    data.extend_from_slice(&[0x01, 0x09, 0x00, 0x00, 1, 2, 3]);
    assert!(matches!(
        extract_literals(&data),
        Err(ZiftError::InvalidData { offset: 14, .. })
    ));
}

#[test]
fn large_streams_are_split_into_blocks_without_losing_literals() {
    let mut data = STREAM_ID.to_vec();
    let mut expected = Vec::new();
    for i in 0..10u8 {
        let payload = vec![b'a' + i; 10_000];
        data.extend_from_slice(&uncompressed_chunk(&payload));
        expected.extend_from_slice(&payload);
    }
    let blocks = extract_literals(&data).unwrap();
    assert_eq!(blocks.len(), 3);
    assert!(blocks.iter().all(|b| !b.literals().is_empty()));
    assert_eq!(all_literals(&blocks), expected);
    assert_eq!(blocks[0].literals().len(), 40_000);
    assert_eq!(blocks[1].offset(), blocks[0].offset() + blocks[0].compressed_len() as u64);
}

#[test]
fn declared_length_checks() {
    assert!(matches!(check_declared_len(None, 5), Err(ZiftError::InvalidData { offset: 5, .. })));
    assert!(matches!(
        check_declared_len(Some(256 * 1024 * 1024 + 1), 0),
        Err(ZiftError::BlockTooLarge { size, max }) if size == 256 * 1024 * 1024 + 1 && max == 256 * 1024 * 1024
    ));
    assert!(matches!(check_declared_len(Some(10), 0), Ok(10)));
}

#[test]
fn decompressed_bytes_are_appended() {
    let mut pending = vec![1u8, 2];
    assert!(append_decompressed(Some(vec![3, 4]), &mut pending, 0).is_ok());
    assert_eq!(pending, vec![1, 2, 3, 4]);
    assert!(matches!(
        append_decompressed(None, &mut pending, 9),
        Err(ZiftError::InvalidData { offset: 9, .. })
    ));
    assert_eq!(pending, vec![1, 2, 3, 4]);
}

fn reason_of(r: Result<Vec<CompressedBlock>, ZiftError>) -> String {
    match r {
        Err(ZiftError::InvalidData { reason, .. }) => reason,
        other => panic!("expected InvalidData, got {other:?}"),
    }
}

#[test]
fn reserved_chunk_reason_names_the_type_in_hex() {
    let mut data = STREAM_ID.to_vec();
    data.extend_from_slice(&chunk(0x02, &[]));
    assert_eq!(
        reason_of(extract_literals(&data)),
        "reserved unskippable snappy chunk type 0x02. Fix: use a standard Snappy framing stream"
    );
    let mut data = STREAM_ID.to_vec();
    data.extend_from_slice(&chunk(0xab, &[]));
    assert_eq!(
        reason_of(extract_literals(&data)),
        "reserved unskippable snappy chunk type 0xab. Fix: use a standard Snappy framing stream"
    );
}

#[test]
fn error_reasons_are_reported() {
    assert_eq!(reason_of(extract_literals(&[])), "empty snappy input. Fix: provide non-empty Snappy data");
    let mut data = STREAM_ID.to_vec();
    data.extend_from_slice(&[0x01, 0x04, 0x00, 0x00, 0xaa, 0xbb, 0xcc, 0xdd]);
    assert_eq!(
        reason_of(extract_literals(&data)),
        "uncompressed snappy chunk too short (needs 4-byte CRC + data). Fix: use a valid Snappy stream"
    );
    let mut data = STREAM_ID.to_vec();
    data.extend_from_slice(&chunk(0x00, &[1, 2]));
    assert_eq!(
        reason_of(extract_literals(&data)),
        "compressed snappy chunk too short for CRC. Fix: use a valid Snappy stream"
    );
    let mut data = STREAM_ID.to_vec();
    data.extend_from_slice(&[0x01, 0x10, 0x00]);
    assert_eq!(
        reason_of(extract_literals(&data)),
        "truncated chunk length, need 3 bytes for Snappy framing length. Fix: use a complete Snappy stream"
    );
    let mut data = STREAM_ID.to_vec();
    data.extend_from_slice(&[0x01, 0x10, 0x00, 0x00, 0xaa]);
    assert_eq!(
        reason_of(extract_literals(&data)),
        "chunk exceeds data bounds. Fix: use a complete Snappy stream"
    );
}

#[test]
fn compressed_chunk_headers_are_read_as_base_128_lengths() {
    // 1 + 2^28 declared bytes: above the literal limit, so BlockTooLarge.
    let mut data = STREAM_ID.to_vec();
    data.extend_from_slice(&chunk(0x00, &[0, 0, 0, 0, 0x81, 0x80, 0x80, 0x80, 0x01]));
    assert!(matches!(
        extract_literals(&data),
        Err(ZiftError::BlockTooLarge { size: 0x1000_0001, max: 0x1000_0000 })
    ));
    // Above 2^32 - 1, or longer than 5 bytes: the header is refused.
    for header in [&[0xff, 0xff, 0xff, 0xff, 0x10][..], &[0x80, 0x80, 0x80, 0x80, 0x80, 0x01][..]] {
        let mut body = vec![0, 0, 0, 0];
        body.extend_from_slice(header);
        let mut data = STREAM_ID.to_vec();
        data.extend_from_slice(&chunk(0x00, &body));
        assert_eq!(
            reason_of(extract_literals(&data)),
            "invalid snappy compressed chunk. Fix: use a valid Snappy stream"
        );
    }
}
