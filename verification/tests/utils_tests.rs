use x11_input_mirror::utils::{decimal_string, decode_u16, encode_u16};

#[test]
fn encode_u16_is_little_endian() {
    assert_eq!(encode_u16(0x1234), [0x34, 0x12]);
    assert_eq!(encode_u16(0), [0, 0]);
    assert_eq!(encode_u16(65535), [255, 255]);
    assert_eq!(encode_u16(256), [0, 1]);
}

#[test]
fn decode_u16_writes_decimal() {
    assert_eq!(decode_u16(&[0x34, 0x12]), "4660");
    assert_eq!(decode_u16(&[0, 0]), "0");
    assert_eq!(decode_u16(&[255, 255]), "65535");
    assert_eq!(decode_u16(&[10, 0]), "10");
}

#[test]
fn decode_u16_undoes_encode_u16() {
    for n in [0u16, 1, 9, 10, 99, 100, 255, 256, 1254, 4660, 40000, 65535] {
        assert_eq!(decode_u16(&encode_u16(n)), n.to_string());
    }
}

#[test]
fn decimal_string_matches_to_string() {
    for n in [0u32, 5, 10, 19, 100, 1000, 123456, 4294967295] {
        assert_eq!(decimal_string(n), n.to_string());
    }
}

#[test]
fn decode_u16_parses_back() {
    for b in [[0u8, 0], [0x34, 0x12], [255, 255], [1, 0], [0, 1], [9, 200]] {
        let n: u16 = decode_u16(&b).parse().unwrap();
        assert_eq!(encode_u16(n), b);
    }
}
