use shingleprint::tar::parse_numeric;
use shingleprint::tar::Header;

#[test]
fn test_parse_numeric_8_packed() {
    assert_eq!(
        parse_numeric(&[0x81, 0x02, 0x03, 0x04, 0x05, 0x06, 0x07, 0x08]).ok(),
        Some(0x0102030405060708),
    );
}

#[test]
fn test_parse_numeric_12_packed() {
    assert_eq!(
        parse_numeric(&[0x80, 0x00, 0x00, 0x00, 0x01, 0x02, 0x03, 0x04, 0x05, 0x06, 0x07, 0x08])
            .ok(),
        Some(0x0102030405060708),
    );
}

#[test]
fn test_parse_numeric_12_packed_overflow() {
    assert_eq!(
        parse_numeric(&[0x80, 0x00, 0x00, 0x01, 0x02, 0x03, 0x04, 0x05, 0x06, 0x07, 0x08, 0x09])
            .ok(),
        None,
    );
}

#[test]
fn test_parse_numeric_12_ascii_small() {
    assert_eq!(parse_numeric(b"00000000017\x00").ok(), Some(15),)
}

#[test]
fn test_parse_numeric_12_ascii_large() {
    assert_eq!(parse_numeric(b"76400000000\x00").ok(), Some(8000 * 1024 * 1024),)
}

#[test]
fn test_parse_numeric_12_ascii_pre_posix() {
    assert_eq!(parse_numeric(b"         17 ").ok(), Some(15),)
}

#[test]
fn parse_numeric_rejects_bad_digit() {
    // '8' is no octal digit, 'z' no filler
    assert_eq!(parse_numeric(b"00000000018\x00").ok(), None);
    assert_eq!(parse_numeric(b"0000000001z\x00").ok(), None);
}

#[test]
fn parse_numeric_all_fillers_is_zero() {
    assert_eq!(parse_numeric(b"        \x00\x00\x00\x00").ok(), Some(0));
}

#[test]
fn header_classification() {
    let mut rec = [0u8; 512];
    rec[0] = b'a';
    rec[124..136].copy_from_slice(b"00000000005\x00");
    rec[156] = b'0';
    let h = Header(&rec);
    assert_eq!(h.type_flag(), b'0');
    assert!(!h.is_null());
    assert!(!h.is_prefix());
    assert_eq!(h.content_len().ok(), Some(5));

    for flag in [b'x', b'K', b'L'] {
        rec[156] = flag;
        let h = Header(&rec);
        assert!(h.is_prefix());
    }

    let zero = [0u8; 512];
    let h = Header(&zero);
    assert!(h.is_null());
    assert!(!h.is_prefix());
}

#[test]
fn null_requires_every_byte_zero() {
    // a zero name byte and zero type flag are not enough: any other
    // nonzero byte keeps the record from being padding
    let mut rec = [0u8; 512];
    rec[124] = b'1';
    assert!(!Header(&rec).is_null());
    let mut rec2 = [0u8; 512];
    rec2[300] = 1;
    assert!(!Header(&rec2).is_null());
}
