use shingleprint::util::k_smallest_unique;

#[test]
fn test() {
    let input: Vec<u32> = b"The quick brown fox jumps over the lazy dog."
        .iter()
        .map(|&b| b as u32)
        .collect();
    let got = k_smallest_unique(&input, 12);
    const EXPECTED: &'static [u8] = b" .Tabcdefghi";
    let expected: Vec<u32> = EXPECTED.iter().map(|&b| b as u32).collect();
    assert_eq!(got, expected);
}

#[test]
fn selector_k_zero_is_empty() {
    let input: Vec<u32> = vec![5, 3, 9, 3, 1];
    let got = k_smallest_unique(&input, 0);
    assert!(got.is_empty());
}

#[test]
fn selector_fewer_distinct_than_k() {
    // duplicates collapse; fewer than k distinct values come back whole
    let input: Vec<u32> = vec![7, 7, 2, 9, 2, 2, 9];
    let got = k_smallest_unique(&input, 10);
    assert_eq!(got, vec![2, 7, 9]);
}

#[test]
fn selector_permutation_invariant() {
    let a: Vec<u32> = vec![10, 4, 8, 1, 4, 15, 0, 23, 8, 16, 42, 5];
    let mut b = a.clone();
    b.reverse();
    let c: Vec<u32> = vec![4, 8, 42, 0, 8, 23, 15, 1, 5, 4, 16, 10];
    let got_a = k_smallest_unique(&a, 5);
    let got_b = k_smallest_unique(&b, 5);
    let got_c = k_smallest_unique(&c, 5);
    assert_eq!(got_a, vec![0, 1, 4, 5, 8]);
    assert_eq!(got_a, got_b);
    assert_eq!(got_a, got_c);
}

#[test]
fn selector_eviction_keeps_smallest() {
    // values arriving largest-first force an eviction for every later value
    let input: Vec<u32> = vec![100, 90, 80, 70, 60, 50, 40, 30, 20, 10];
    let got = k_smallest_unique(&input, 3);
    assert_eq!(got, vec![10, 20, 30]);
}
