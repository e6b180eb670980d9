use diomanim::color::hex_rgb8;

#[test]
fn hex_fields_read_as_bytes() {
    assert_eq!(hex_rgb8(b"#FF8000"), (255, 128, 0));
    assert_eq!(hex_rgb8(b"1a1a1a"), (26, 26, 26));
    assert_eq!(hex_rgb8(b"##00ff7F"), (0, 255, 127));
}

#[test]
fn malformed_fields_read_as_zero() {
    assert_eq!(hex_rgb8(b"#zz10gg"), (0, 16, 0));
    assert_eq!(hex_rgb8(b"#-1+f+0"), (0, 15, 0));
    assert_eq!(hex_rgb8("#\u{e9}1234".as_bytes()), (0, 18, 52));
}

#[test]
fn only_the_first_six_bytes_count() {
    assert_eq!(hex_rgb8(b"#123456789"), (0x12, 0x34, 0x56));
}
