use os_rng::words::{u32_from_bytes, u64_from_bytes, ByteOrder};

#[test]
fn u32_little_endian_value() {
    assert_eq!(u32_from_bytes(&[1, 2, 3, 4], ByteOrder::Little), 0x0403_0201);
}

#[test]
fn u32_big_endian_value() {
    assert_eq!(u32_from_bytes(&[1, 2, 3, 4], ByteOrder::Big), 0x0102_0304);
}

#[test]
fn u64_little_endian_value() {
    let b = [0x10, 0x32, 0x54, 0x76, 0x98, 0xba, 0xdc, 0xfe];
    assert_eq!(u64_from_bytes(&b, ByteOrder::Little), 0xfedc_ba98_7654_3210);
}

#[test]
fn u64_big_endian_value() {
    let b = [0x10, 0x32, 0x54, 0x76, 0x98, 0xba, 0xdc, 0xfe];
    assert_eq!(u64_from_bytes(&b, ByteOrder::Big), 0x1032_5476_98ba_dcfe);
}

#[test]
fn words_of_extreme_bytes() {
    assert_eq!(u32_from_bytes(&[0; 4], ByteOrder::Little), 0);
    assert_eq!(u32_from_bytes(&[0xff; 4], ByteOrder::Big), u32::MAX);
    assert_eq!(u64_from_bytes(&[0xff; 8], ByteOrder::Little), u64::MAX);
    assert_eq!(u64_from_bytes(&[0; 8], ByteOrder::Big), 0);
}

#[test]
fn words_agree_with_std_byte_order() {
    let b4 = [0x9a, 0x01, 0xe7, 0x42];
    let b8 = [7, 0, 200, 13, 255, 1, 64, 128];
    assert_eq!(u32_from_bytes(&b4, ByteOrder::Little), u32::from_le_bytes(b4));
    assert_eq!(u32_from_bytes(&b4, ByteOrder::Big), u32::from_be_bytes(b4));
    assert_eq!(u64_from_bytes(&b8, ByteOrder::Little), u64::from_le_bytes(b8));
    assert_eq!(u64_from_bytes(&b8, ByteOrder::Big), u64::from_be_bytes(b8));
}
