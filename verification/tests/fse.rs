use ziftsieve::zstd::bit_io::BitReaderReversed;
use ziftsieve::zstd::fse::{Entry, FSEDecoder, FSETable};

#[test]
fn equal_probabilities_split_the_table() {
    let mut table = FSETable::new(255);
    assert!(table.build_from_probabilities(5, &[16, 16]).is_some());
    assert_eq!(table.accuracy_log, 5);
    assert_eq!(table.decode.len(), 32);
    let zeros = table.decode.iter().filter(|e| e.symbol == 0).count();
    assert_eq!(zeros, 16);
    assert!(table.decode.iter().all(|e| e.num_bits == 1));
}

#[test]
fn less_than_one_probability_takes_the_top_state() {
    let mut table = FSETable::new(255);
    assert!(table.build_from_probabilities(5, &[-1, 31]).is_some());
    assert_eq!(table.decode[31].symbol, 0);
    assert_eq!(table.decode[31].num_bits, 5);
    assert_eq!(table.decode[31].base_line, 0);
    let ones = table.decode.iter().filter(|e| e.symbol == 1).count();
    assert_eq!(ones, 31);
}

#[test]
fn too_many_symbols_for_the_table_are_refused() {
    let mut table = FSETable::new(1);
    assert!(table.build_from_probabilities(5, &[8, 8, 16]).is_none());
}

#[test]
fn zero_accuracy_log_is_refused() {
    let mut table = FSETable::new(255);
    assert!(table.build_from_probabilities(0, &[]).is_none());
}

#[test]
fn reset_empties_the_table() {
    let mut table = FSETable::new(255);
    table.build_from_probabilities(5, &[16, 16]).unwrap();
    table.reset();
    assert!(table.decode.is_empty());
    assert_eq!(table.accuracy_log, 0);
}

#[test]
fn decoder_reads_its_first_state_from_the_top() {
    let mut table = FSETable::new(255);
    table.build_from_probabilities(5, &[16, 16]).unwrap();
    let data = [0b1111_1000u8];
    let mut br = BitReaderReversed::new(&data);
    let mut dec = FSEDecoder::new(&table);
    assert!(dec.init_state(&mut br).is_some());
    assert_eq!(br.bits_remaining(), 3);
    let expected = table.decode[0b11111].symbol;
    assert_eq!(dec.decode_symbol(), expected);
}

#[test]
fn the_same_distribution_always_gives_the_same_table() {
    let mut a = FSETable::new(255);
    let mut b = FSETable::new(255);
    a.build_from_probabilities(6, &[20, -1, 30, 13]).unwrap();
    b.build_from_probabilities(6, &[20, -1, 30, 13]).unwrap();
    assert_eq!(a.decode.len(), 64);
    for (x, y) in a.decode.iter().zip(b.decode.iter()) {
        assert_eq!((x.symbol, x.num_bits, x.base_line), (y.symbol, y.num_bits, y.base_line));
    }
}

#[test]
fn accuracy_log_two_builds_a_table() {
    let mut t = FSETable::new(255);
    assert_eq!(t.build_from_probabilities(2, &[-1, 2, 1]), Some(()));
    assert_eq!(t.accuracy_log, 2);
    let entries: Vec<(u8, u32, u8)> = t.decode.iter().map(|e| (e.symbol, e.base_line, e.num_bits)).collect();
    assert_eq!(entries, vec![(1, 0, 1), (1, 2, 1), (2, 0, 2), (0, 0, 2)]);
}

#[test]
fn a_symbols_state_ranges_cover_the_table_once() {
    let mut t = FSETable::new(255);
    t.build_from_probabilities(6, &[20, -1, 30, 13]).unwrap();
    for sym in [0u8, 2, 3] {
        let mut covered = vec![0u32; 64];
        for e in t.decode.iter().filter(|e| e.symbol == sym) {
            for x in e.base_line..e.base_line + (1u32 << e.num_bits) {
                covered[x as usize] += 1;
            }
        }
        assert!(covered.iter().all(|&c| c == 1));
    }
}

fn entries(t: &FSETable) -> Vec<(u8, u32, u8)> {
    t.decode.iter().map(|e| (e.symbol, e.base_line, e.num_bits)).collect()
}

#[test]
fn accuracy_log_one_spreads_onto_slot_zero() {
    let mut t = FSETable::new(255);
    assert_eq!(t.build_from_probabilities(1, &[1, 1]), Some(()));
    assert_eq!(entries(&t), vec![(1, 0, 1), (0, 0, 1)]);
    let mut u = FSETable::new(255);
    assert_eq!(u.build_from_probabilities(1, &[-1, 1]), Some(()));
    assert_eq!(entries(&u), vec![(1, 0, 1), (0, 0, 1)]);
}

#[test]
fn accuracy_log_three_spreads_onto_slot_zero() {
    let mut t = FSETable::new(255);
    assert_eq!(t.build_from_probabilities(3, &[2, 6]), Some(()));
    assert_eq!(
        entries(&t),
        vec![(1, 4, 1), (0, 0, 2), (0, 4, 2), (0, 8, 2), (0, 12, 2), (0, 16, 2), (0, 20, 2), (0, 24, 2)]
    );
    let mut again = FSETable::new(255);
    again.build_from_probabilities(3, &[2, 6]).unwrap();
    assert_eq!(entries(&again), entries(&t));
}

#[test]
fn decoder_walks_a_table_it_did_not_build() {
    // Three entries, not a power of two: the moves only have to stay in range.
    let mut table = FSETable::new(255);
    table.accuracy_log = 1;
    table.decode = vec![
        Entry { base_line: 1, num_bits: 1, symbol: 7 },
        Entry { base_line: 0, num_bits: 0, symbol: 8 },
        Entry { base_line: 0, num_bits: 1, symbol: 9 },
    ];
    let data = [0b1100_0000u8];
    let mut br = BitReaderReversed::new(&data);
    let mut dec = FSEDecoder::new(&table);
    assert!(dec.init_state(&mut br).is_some());
    assert_eq!(dec.decode_symbol(), 8);
    dec.state = table.decode[0];
    dec.update_state(&mut br);
    assert_eq!(br.bits_remaining(), 6);
    assert_eq!(dec.decode_symbol(), 9);
}
