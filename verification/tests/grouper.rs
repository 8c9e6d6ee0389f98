use mnemonic::grouper::{shift_11, write_with_shift_11};

#[test]
fn shift_11_works_correctly() {
    let mut source: Vec<u8> = vec![
        0x31, 0x32, 0x33, 0x34, 0x35, 0x36, 0x37, 0x38, 0x39, 0x30, 0x31,
    ];

    let expected: Vec<u8> = vec![
        0x91, 0x99, 0xa1, 0xa9, 0xb1, 0xb9, 0xc1, 0xc9, 0x81, 0x88, 0x0,
    ];

    shift_11(&mut source);
    assert_eq!(source, expected);
}

#[test]
fn write_with_shift_11_works_correctly() {
    let mut source: Vec<u8> = vec![0b11111111, 0b10100000, 0b00000000];
    let value = 0b11111111111;
    let expected: Vec<u8> = vec![0b11111111, 0b10111111, 0b11111100];

    write_with_shift_11(&mut source, value, 1);
    assert_eq!(source, expected);
}

#[test]
fn write_with_shift_11_works_when_bit_shift_is_greater_than_5() {
    // On 5th word the bit shift is 7; on 2th it's 6.

    let mut source: Vec<u8> = vec![0; 9];

    let value = 0b11111111111;
    let expected: Vec<u8> = vec![0x0, 0x0, 0x0, 0x0, 0x0, 0x0, 0x1, 0xFF, 0b11000000];

    write_with_shift_11(&mut source, value, 5);
    assert_eq!(source, expected);
}

#[test]
fn shift_11_clears_the_tail_of_a_two_byte_buffer() {
    let mut source: Vec<u8> = vec![0xFF, 0xFF];
    shift_11(&mut source);
    assert_eq!(source, vec![0b11111000, 0x00]);
}

#[test]
fn write_with_shift_11_preserves_surrounding_bits() {
    let mut source: Vec<u8> = vec![0xFF, 0xFF, 0xFF];
    write_with_shift_11(&mut source, 0, 1);
    // Bits 11..22 cleared, all others kept.
    assert_eq!(source, vec![0b11111111, 0b11100000, 0b00000011]);
}

#[test]
fn split_cuts_the_stream_into_11_bit_groups() {
    let empty: Vec<u16> = Vec::new();
    assert_eq!(mnemonic::grouper::split(&Vec::new()), empty);
    // 0xFF is the group 11111111 followed by three zero-padding bits.
    assert_eq!(mnemonic::grouper::split(&vec![0xFF]), vec![0b11111111000]);
    // 0x31 0x32 starts with the group 00110001 001.
    let groups = mnemonic::grouper::split(&vec![0x31, 0x32]);
    assert_eq!(groups.len(), 2);
    assert_eq!(groups[0], 0b00110001001);
}

#[test]
fn join_writes_groups_back_at_their_bit_offsets() {
    assert_eq!(mnemonic::grouper::join(&vec![0b11111111000], 1), vec![0xFF]);
    let groups = mnemonic::grouper::split(&vec![0x31, 0x32, 0x33]);
    assert_eq!(mnemonic::grouper::join(&groups, 3), vec![0x31, 0x32, 0x33]);
}
