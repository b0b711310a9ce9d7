use shingleprint::shingleprint::hash::hash_portable;
use shingleprint::shingleprint::hash::HashTables;

const INPUT1: &'static [u8] = b"MOUNTAINAARDVARK";
const EXPECTED_OUTPUT1: u32 = 0xEC8D5402;

const INPUT2: &'static [u8] = b"Absentmindedness";
const EXPECTED_OUTPUT2: u32 = 0x25066ADF;

#[test]
fn hash_test_portable() {
    assert_eq!(hash_portable(INPUT1), EXPECTED_OUTPUT1);
    assert_eq!(hash_portable(INPUT2), EXPECTED_OUTPUT2);
}

#[test]
fn hash_empty_input() {
    // seeded all-ones, complemented at the end: no data leaves zero
    assert_eq!(hash_portable(b""), 0);
}

#[test]
fn hash_crc32c_check_value() {
    // the standard CRC-32C check value
    assert_eq!(hash_portable(b"123456789"), 0xE3069283);
}

#[test]
fn hash_odd_length_tail() {
    // an odd-length input exercises the 8-bit table for the trailing byte:
    // it must agree with hashing through a range of a larger buffer
    let tables = HashTables::new();
    let buf = b"xMOUNTAINAARDVARKy";
    assert_eq!(tables.hash_range(buf, 1, 17), EXPECTED_OUTPUT1);
    assert_eq!(hash_portable(b"abc"), tables.hash_range(b"abc", 0, 3));
}
