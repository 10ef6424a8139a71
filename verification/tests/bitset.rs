use sapxc::bitset::Bitset;

#[test]
fn new_buffer_is_empty() {
    let buffer = Bitset::new();
    assert_eq!(buffer.length(), 0);
    assert_eq!(buffer.export(), Vec::<u8>::new());
}

#[test]
fn append_writes_most_significant_bit_first() {
    let mut buffer = Bitset::new();
    buffer.append(0b101, 3);
    assert_eq!(buffer.length(), 3);
    assert_eq!(buffer.export(), vec![0b1010_0000]);
}

#[test]
fn append_extends_by_exactly_the_width() {
    let mut buffer = Bitset::new();
    buffer.append(1, 4);
    assert_eq!(buffer.length(), 4);
    buffer.append(0, 4);
    assert_eq!(buffer.length(), 8);
    buffer.append(3, 9);
    assert_eq!(buffer.length(), 17);
    assert_eq!(buffer.export(), vec![0b0001_0000, 0b0000_0001, 0b1000_0000]);
}

#[test]
fn append_truncates_to_the_low_bits() {
    let mut buffer = Bitset::new();
    buffer.append(0xff, 4);
    buffer.append(0x1f5, 4);
    assert_eq!(buffer.length(), 8);
    assert_eq!(buffer.export(), vec![0xf5]);
}

#[test]
fn append_of_width_zero_writes_nothing() {
    let mut buffer = Bitset::new();
    buffer.append(1, 0);
    assert_eq!(buffer.length(), 0);
    assert_eq!(buffer.export(), Vec::<u8>::new());
}

#[test]
fn append_pads_wide_fields_with_zeros() {
    let mut buffer = Bitset::new();
    buffer.append(1, 130);
    assert_eq!(buffer.length(), 130);
    let mut expected = vec![0u8; 17];
    expected[16] = 0b0100_0000;
    assert_eq!(buffer.export(), expected);
}

#[test]
fn append_keeps_all_bits_of_a_full_value() {
    let mut buffer = Bitset::new();
    buffer.append(u128::MAX, 128);
    assert_eq!(buffer.export(), vec![0xffu8; 16]);
    let mut other = Bitset::new();
    other.append(1u128 << 127, 128);
    let mut expected = vec![0u8; 16];
    expected[0] = 0x80;
    assert_eq!(other.export(), expected);
}

#[test]
fn export_packs_whole_bytes() {
    let mut buffer = Bitset::new();
    buffer.append(0xab, 8);
    buffer.append(0xcd, 8);
    assert_eq!(buffer.export(), vec![0xab, 0xcd]);
}

#[test]
fn export_pads_the_last_byte_with_zeros() {
    let mut buffer = Bitset::new();
    buffer.append(0b1111_1111_1, 9);
    assert_eq!(buffer.export(), vec![0xff, 0x80]);
    for width in 0..=40u8 {
        let mut bits = Bitset::new();
        bits.append(u128::MAX, width);
        assert_eq!(bits.export().len(), (width as usize + 7) / 8);
    }
}

#[test]
fn export_does_not_change_the_buffer() {
    let mut buffer = Bitset::new();
    buffer.append(0b11, 2);
    assert_eq!(buffer.export(), vec![0b1100_0000]);
    buffer.append(0b01, 2);
    assert_eq!(buffer.length(), 4);
    assert_eq!(buffer.export(), vec![0b1101_0000]);
}

#[test]
fn field_reads_back_as_the_value_modulo_its_width() {
    for value in 0..64u128 {
        let mut buffer = Bitset::new();
        buffer.append(value, 4);
        buffer.append(0, 4);
        assert_eq!(buffer.export(), vec![((value % 16) as u8) << 4]);
    }
}
