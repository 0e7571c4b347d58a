use miniz_oxide::bytes::{read_u16_le, write_u16_le, write_u16_le_uc};

#[test]
fn u16_to_slice() {
    let mut slice = [0, 0];
    write_u16_le(2000, &mut slice, 0);
    assert_eq!(slice, [208, 7]);
    let mut slice = [0, 0];
    write_u16_le_uc(2000, &mut slice, 0);
    assert_eq!(slice, [208, 7]);
}

#[test]
fn u16_from_slice() {
    let mut slice = [208, 7];
    assert_eq!(read_u16_le(&mut slice, 0), 2000);
}

#[test]
fn u16_write_then_read_gives_value() {
    let mut slice = [1u8, 2, 3, 4];
    write_u16_le(0xBEEF, &mut slice, 1);
    assert_eq!(slice, [1, 0xEF, 0xBE, 4]);
    assert_eq!(read_u16_le(&slice, 1), 0xBEEF);
}
