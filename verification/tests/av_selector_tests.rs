use shingleprint::util::k_smallest_unique as k_smallest_unique_vec;

#[test]
fn av_selector_fewer_distinct_than_capacity() {
    // the pangram has 29 distinct bytes, fewer than the 32-slot capacity:
    // every distinct value comes back, ascending
    let input: Vec<u32> = b"The quick brown fox jumps over the lazy dog."
        .iter()
        .map(|&b| b as u32)
        .collect();
    let got = shingleprint::util::k_smallest_unique::k_smallest_unique(&input);
    let mut expected = input.clone();
    expected.sort();
    expected.dedup();
    assert_eq!(expected.len(), 29);
    assert_eq!(got.as_slice(), expected.as_slice());
}

#[test]
fn av_selector_evicts_down_to_smallest() {
    // 64 distinct values arriving large-to-small: only the 32 smallest stay
    let input: Vec<u32> = (0..64u32).rev().map(|v| v * 3 + 1).collect();
    let got = shingleprint::util::k_smallest_unique::k_smallest_unique(&input);
    let expected: Vec<u32> = (0..32u32).map(|v| v * 3 + 1).collect();
    assert_eq!(got.as_slice(), expected.as_slice());
}

#[test]
fn av_selector_agrees_with_vec_selector() {
    let input: Vec<u32> = (0..100u32).map(|v| (v * 7919) % 57).collect();
    let fixed = shingleprint::util::k_smallest_unique::k_smallest_unique(&input);
    let growable = k_smallest_unique_vec(&input, 32);
    assert_eq!(fixed.as_slice(), growable.as_slice());
}
