use personal_site::rng::xorshift_next;

#[test]
fn xorshift_known_values() {
    let mut s = 1u32;
    assert_eq!(xorshift_next(&mut s), 270369);
    assert_eq!(s, 270369);
    let mut s = 0x9e3779b9u32;
    assert_eq!(xorshift_next(&mut s), 1359758873);
    assert_eq!(xorshift_next(&mut s), 3761132862);
}

#[test]
fn xorshift_zero_is_fixed_and_nonzero_stays_nonzero() {
    let mut z = 0u32;
    assert_eq!(xorshift_next(&mut z), 0);
    let mut s = 0x9e3779b9u32;
    for _ in 0..10_000 {
        assert_ne!(xorshift_next(&mut s), 0);
    }
}

#[test]
fn xorshift_distinct_states_stay_distinct() {
    let mut seen = std::collections::HashSet::new();
    for start in 1u32..2000 {
        let mut s = start;
        assert!(seen.insert(xorshift_next(&mut s)));
    }
}
