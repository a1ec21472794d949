use ziftsieve::zstd::huffman::{decode_literals, parse_tree, parse_tree_checked, HuffmanTable};

#[test]
fn test_parse_tree_direct_high_nibble_first() {
    let data = [0x81, 0x21];
    let (weights, consumed) = parse_tree(&data).unwrap();
    assert_eq!(consumed, 2);
    assert_eq!(weights[0], 2);
    assert_eq!(weights[1], 1);
    assert_eq!(weights[2], 1);
}

#[test]
fn test_parse_tree_direct_odd_count() {
    let data = [0x82, 0x23, 0x40];
    let (weights, consumed) = parse_tree(&data).unwrap();
    assert_eq!(consumed, 3);
    assert_eq!(weights[0], 2);
    assert_eq!(weights[1], 3);
    assert_eq!(weights[2], 4);
    assert_eq!(weights[3], 2);
}

#[test]
fn test_parse_tree_truncated() {
    let data = [0x81];
    assert!(parse_tree(&data).is_none());
}

#[test]
fn test_huffman_table_builds_from_direct_weights() {
    let data = [0x82, 0x22, 0x20];
    let mut table = HuffmanTable::new();
    let bytes = table.build_decoder(&data).unwrap();
    assert_eq!(bytes, 3);
    assert_eq!(table.max_num_bits, 3);
}

#[test]
fn test_decode_literals_truncated_tree() {
    let data = [0x81];
    assert!(decode_literals(&data, 1, 1).is_none());
}

/// A de Bruijn sequence over `a..z` of order `n`.
fn debruijn(k: u8, n: usize) -> Vec<u8> {
    let k = k as usize;
    let mut a = vec![0usize; k * n];
    let mut seq = Vec::with_capacity(k.pow(n as u32));
    debruijn_step(&mut a, &mut seq, 1, 1, k, n);
    seq
}

fn debruijn_step(a: &mut [usize], seq: &mut Vec<u8>, t: usize, p: usize, k: usize, n: usize) {
    if t > n {
        if n % p == 0 {
            for &val in a.iter().take(p + 1).skip(1) {
                seq.push((val as u8) + b'a');
            }
        }
    } else {
        a[t] = a[t - p];
        debruijn_step(a, seq, t + 1, p, k, n);
        for j in (a[t - p] + 1)..k {
            a[t] = j;
            debruijn_step(a, seq, t + 1, t, k, n);
        }
    }
}

#[test]
fn test_huffman_roundtrip_debruijn() {
    let mut data = debruijn(26, 3);
    let prefix = data[..2].to_vec();
    data.extend_from_slice(&prefix);

    let compressed = zstd::encode_all(&data[..], 3).unwrap();
    let decompressed = zstd::decode_all(&compressed[..]).unwrap();
    assert_eq!(decompressed, data, "zstd did not roundtrip the input");
    let blocks = ziftsieve::zstd::extract_literals(&compressed).unwrap();

    let mut literals = Vec::with_capacity(data.len());
    for block in blocks {
        literals.extend_from_slice(block.literals());
    }

    assert_eq!(literals, data);
}

#[test]
fn parse_tree_of_direct_weights_completes_the_kraft_sum() {
    // Weights [2, 2, 2]: the sum 6 leaves 2 to the next power of two, so
    // the implied last weight is 2.
    let (weights, consumed) = parse_tree(&[0x82, 0x22, 0x20]).unwrap();
    assert_eq!(consumed, 3);
    assert_eq!(&weights[..5], &[2, 2, 2, 2, 0]);
}

#[test]
fn parse_tree_refuses_all_zero_weights() {
    assert!(parse_tree(&[0x81, 0x00]).is_none());
}

#[test]
fn parse_tree_refuses_a_remainder_that_is_not_a_power_of_two() {
    // Weights [2, 2, 1] sum to 5 and leave 3 to the next power of two.
    assert!(parse_tree(&[0x82, 0x22, 0x10]).is_none());
}

#[test]
fn decode_literals_of_zero_literals_is_empty() {
    assert_eq!(decode_literals(&[0x81], 0, 1), Some(Vec::new()));
}

#[test]
fn decode_literals_refuses_too_many_literals() {
    assert!(decode_literals(&[0x82, 0x22, 0x20, 0x01], 128 * 1024 + 1, 1).is_none());
}

#[test]
fn decode_literals_refuses_an_unknown_stream_count() {
    assert!(decode_literals(&[0x82, 0x22, 0x20, 0x80], 1, 2).is_none());
}

#[test]
fn decode_literals_single_stream() {
    // Weights [2, 2, 2] and the implied fourth give four 2-bit codes in a
    // 3-bit table; symbol `s` has code `s`. The stream byte, read from the
    // top: padding `01`, then codes 00, 01, 10.
    let data = [0x82u8, 0x22, 0x20, 0b0100_0110];
    assert_eq!(decode_literals(&data, 3, 1), Some(vec![0, 1, 2]));
}

#[test]
fn decode_literals_refuses_a_count_mismatch() {
    let data = [0x82u8, 0x22, 0x20, 0b0100_0110];
    assert!(decode_literals(&data, 4, 1).is_none());
}

#[test]
fn parse_tree_checked_agrees_on_weights_in_range() {
    let (weights, consumed) = parse_tree_checked(&[0x82, 0x22, 0x20]).unwrap();
    assert_eq!(consumed, 3);
    assert_eq!(&weights[..5], &[2, 2, 2, 2, 0]);
    assert!(parse_tree_checked(&[0x81, 0x00]).is_none());
    assert!(parse_tree_checked(&[0x90]).is_none());
}
