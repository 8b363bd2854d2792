use w4_pnger::bitfiddle::BitSliceWriter;
use w4_pnger::decomp::{
    assemble_bitplanes_in_place, delta_decode_in_place, jump_delta_decode_in_place, xor_bitplanes,
};

#[test]
fn test_xor_bitplanes() {
    let bp1 = vec![0b11001100, 0b00110011u8];
    let mut bp2 = vec![0b10101010, 0b00001111u8];
    let bpr = vec![0b01100110, 0b00111100u8];

    xor_bitplanes(&bp1[..], &mut bp2[..]);
    assert_eq!(bp2, bpr);
}

#[test]
fn test_rotate() {
    let mut bytes = vec![0b11001100, 0b00110011u8];
    let outtt = vec![0b00111100, 0b00110011u8];
    let mut writer = BitSliceWriter::new(&mut bytes[..]);

    writer.rotate_right(4, 8, 2);
    assert_eq!(bytes, outtt);
}

#[test]
fn test_assemble_bitplanes() {
    let mut bp1 = vec![0b11001100, 0b11001100, 0b00110011, 0b00110011u8];
    let bpr = vec![0b01011010, 0b01011010, 0b01011010, 0b01011010u8];

    assemble_bitplanes_in_place(&mut bp1[..]);
    assert_eq!(bp1, bpr);
}

#[test]
fn test_delta_decode_in_place() {
    let mut bytes = vec![0b00000001, 0b00100100, 0b00001000u8];
    let resul = vec![0b11111111, 0b11100011, 0b00000111u8];

    delta_decode_in_place(&mut bytes[..]);
    assert_eq!(bytes, resul);
}

#[test]
fn test_jump_decode_in_place() {
    let mut bytes = vec![0b00111100, 0b00110100, 0b10110101u8];
    let resul = vec![0b00111100, 0b00001000, 0b10111101u8];

    jump_delta_decode_in_place(&mut bytes[..], 8);
    assert_eq!(bytes, resul);

    let mut bytes = vec![0b00100011, 0b00100100, 0b10000001u8];
    let resul = vec![0b00010011, 0b01110101, 0b11100110u8];

    jump_delta_decode_in_place(&mut bytes[..], 4);
    assert_eq!(bytes, resul);
}
