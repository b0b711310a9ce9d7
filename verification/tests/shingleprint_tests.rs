use shingleprint::shingleprint::hash::HashTables;
use shingleprint::shingleprint::shingleprint_portable;
use shingleprint::shingleprint::sketch_from_hashes;
use shingleprint::tunables::SHINGLE_LEN;

const INPUT1: &'static [u8] =
    b"The quick brown fox jumps over the lazy dog, and jumps over the lazy dog once more.";
const EXPECTED_OUTPUT1: [u32; 32] = [
    0x033587c5, // "umps over the la"
    0x05b12fee, // "e quick brown fo"
    0x1980c846, // "he quick brown f"
    0x1d48713a, // " jumps over the "
    0x1fa20db9, // ", and jumps over"
    0x2204152a, // "zy dog once more"
    0x29f55ece, // "e lazy dog, and "
    0x2cc7491e, // "g, and jumps ove"
    0x2d1beb0d, // "og, and jumps ov"
    0x33ef503d, // "ps over the lazy"
    0x35c43c8a, // "er the lazy dog,"
    0x375dfa1a, // "brown fox jumps "
    0x37e9db4b, // "ver the lazy dog"
    0x38ce842c, // " quick brown fox"
    0x3bf9991e, // "The quick brown "
    0x455e775e, // "r the lazy dog, "
    0x45faa7d6, // "own fox jumps ov"
    0x4a426dd6, // "and jumps over t"
    0x52ce507b, // "rown fox jumps o"
    0x540bc1a1, // "fox jumps over t"
    0x57c9d9d6, // " fox jumps over "
    0x5a57cc7d, // "quick brown fox "
    0x5e6e5527, // "e lazy dog once "
    0x5eb5b1d8, // "azy dog, and jum"
    0x60b5b863, // "jumps over the l"
    0x660da061, // "ck brown fox jum"
    0x66f5e2c2, // "wn fox jumps ove"
    0x6d6879ac, // "n fox jumps over"
    0x6e48c13b, // "dog, and jumps o"
    0x7358b062, // "azy dog once mor"
    0x73a84068, // " and jumps over "
    0x74c764b5, // " the lazy dog on"
];

#[test]
fn mod_test_portable() {
    let got = shingleprint_portable(INPUT1);
    assert_eq!(got.hashes().as_slice(), &EXPECTED_OUTPUT1);
}

#[test]
fn shingleprint_short_buffer_is_empty() {
    // a buffer shorter than one window has no shingles at all
    assert!(SHINGLE_LEN > 5);
    let got = shingleprint_portable(b"short");
    assert!(got.hashes().is_empty());
}

#[test]
fn shingleprint_exactly_one_window() {
    let got = shingleprint_portable(b"MOUNTAINAARDVARK");
    assert_eq!(got.hashes().as_slice(), &[0xEC8D5402u32]);
}

#[test]
fn sketch_from_precomputed_hashes_matches_direct_sketch() {
    // a back end may hand over the window hashes in any order; the sketch
    // must come out the same as hashing the buffer directly
    let tables = HashTables::new();
    let mut hashes: Vec<u32> = (0..=INPUT1.len() - SHINGLE_LEN)
        .map(|i| tables.hash_range(INPUT1, i, i + SHINGLE_LEN))
        .collect();
    hashes.reverse();
    let sketch = sketch_from_hashes(&hashes);
    assert_eq!(sketch, shingleprint_portable(INPUT1));
    assert_eq!(sketch.duplicate(), sketch);
}

#[test]
fn shingleprint_is_sorted_and_distinct() {
    let got = shingleprint_portable(INPUT1);
    let hashes = got.hashes();
    for w in hashes.windows(2) {
        assert!(w[0] < w[1]);
    }
}
