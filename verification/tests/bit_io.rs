use ziftsieve::zstd::bit_io::{BitReader, BitReaderReversed};

#[test]
fn reverse_reader_matches_ruzstd() {
    let data = [0b10101010u8, 0b01010101];
    let mut br = BitReaderReversed::new(&data);
    assert_eq!(br.get_bits(1), 0);
    assert_eq!(br.get_bits(1), 1);
    assert_eq!(br.get_bits(1), 0);
    assert_eq!(br.get_bits(4), 0b1010);
    assert_eq!(br.get_bits(4), 0b1101);
    assert_eq!(br.get_bits(4), 0b0101);
    assert_eq!(br.get_bits(4), 0b0000);
    assert_eq!(br.get_bits(4), 0b0000);
    assert_eq!(br.bits_remaining(), -7);
}

#[test]
fn reverse_reader_peek_then_consume() {
    let data = [0x12u8, 0x34, 0x56];
    let mut br = BitReaderReversed::new(&data);
    assert_eq!(br.bits_remaining(), 24);
    assert_eq!(br.get_bits(4), 0x5);
    assert_eq!(br.peek_bits(4), 0x6);
    assert_eq!(br.bits_remaining(), 20);
    br.consume(4);
    assert_eq!(br.bits_remaining(), 16);
    assert_eq!(br.get_bits(16), 0x3412);
    assert_eq!(br.bits_remaining(), 0);
}

#[test]
fn forward_reader_reads_lsb_first() {
    let data = [0b1011_0110u8, 0xff];
    let mut br = BitReader::new(&data);
    assert_eq!(br.bits_left(), 16);
    assert_eq!(br.get_bits(3), Some(0b110));
    assert_eq!(br.bits_read(), 3);
    assert_eq!(br.get_bits(5), Some(0b10110));
    assert_eq!(br.get_bits(8), Some(0xff));
    assert_eq!(br.bits_left(), 0);
}

#[test]
fn forward_reader_refuses_reads_past_the_end() {
    let data = [0xa5u8];
    let mut br = BitReader::new(&data);
    assert_eq!(br.get_bits(9), None);
    assert_eq!(br.bits_read(), 0);
    assert_eq!(br.get_bits(65), None);
    assert_eq!(br.get_bits(8), Some(0xa5));
}

#[test]
fn forward_reader_return_bits_rewinds() {
    let data = [0x0fu8, 0xf0];
    let mut br = BitReader::new(&data);
    assert_eq!(br.get_bits(12), Some(0x00f));
    br.return_bits(8);
    assert_eq!(br.bits_read(), 4);
    assert_eq!(br.get_bits(8), Some(0x00));
    assert_eq!(br.get_bits(4), Some(0xf));
}
