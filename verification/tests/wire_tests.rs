use userland::wire::{read_field, u16_le, u32_le, u64_le, write_field};

#[test]
fn little_endian_reads() {
    assert_eq!(u16_le(&[0x34, 0x12]), 0x1234);
    assert_eq!(u32_le(&[0x78, 0x56, 0x34, 0x12, 0xff]), 0x1234_5678);
    assert_eq!(u64_le(&[1, 2, 3, 4, 5, 6, 7, 8]), 0x0807_0605_0403_0201);
    assert_eq!(u64_le(&[0xff; 8]), u64::MAX);
}

#[test]
fn u32_is_two_u16() {
    let b = [0xaa, 0xbb, 0xcc, 0xdd];
    assert_eq!(u32_le(&b), u16_le(&b[..2]) as u32 + 65536 * u16_le(&b[2..]) as u32);
}

#[test]
fn read_field_sizes() {
    let data = [0x01, 0x02, 0x03, 0x04, 0x05];
    assert_eq!(read_field(&data, 0, 1), 0x01);
    assert_eq!(read_field(&data, 1, 2), 0x0302);
    assert_eq!(read_field(&data, 1, 4), 0x0504_0302);
    assert_eq!(read_field(&data, 2, 4), 0);
    assert_eq!(read_field(&data, 5, 1), 0);
    assert_eq!(read_field(&data, 0, 3), 0);
}

#[test]
fn write_field_sizes() {
    let mut data = [0u8; 6];
    write_field(&mut data, 1, 4, 0xdead_beef);
    assert_eq!(data, [0, 0xef, 0xbe, 0xad, 0xde, 0]);
    write_field(&mut data, 4, 2, 0x1_2345);
    assert_eq!(data, [0, 0xef, 0xbe, 0xad, 0x45, 0x23]);
    write_field(&mut data, 0, 1, 0x1ff);
    assert_eq!(data, [0xff, 0xef, 0xbe, 0xad, 0x45, 0x23]);
}

#[test]
fn write_field_out_of_range_changes_nothing() {
    let mut data = [7u8; 4];
    write_field(&mut data, 2, 4, 1);
    write_field(&mut data, 0, 3, 1);
    write_field(&mut data, 4, 1, 1);
    assert_eq!(data, [7u8; 4]);
}

#[test]
fn read_after_write_gives_value_cut_to_width() {
    for &(size, value, expect) in &[(1u8, 0x1234u32, 0x34u32), (2, 0x12_3456, 0x3456), (4, 0xfeed_f00d, 0xfeed_f00d)] {
        let mut data = [0u8; 8];
        write_field(&mut data, 3, size, value);
        assert_eq!(read_field(&data, 3, size), expect);
    }
}
