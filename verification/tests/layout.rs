use personal_site::layout::balanced_split;

fn lens(phrase: &str) -> Vec<usize> {
    phrase.split(' ').map(|w| w.len()).collect()
}

#[test]
fn balanced_split_two_words() {
    assert_eq!(balanced_split(&lens("BUILDS TECHNOLOGY")), 1);
}

#[test]
fn balanced_split_picks_most_even_break() {
    // "WORDS AS ROCKS" | "IN A STREAM": 14 vs 11; other breaks are worse
    assert_eq!(balanced_split(&lens("WORDS AS ROCKS IN A STREAM")), 3);
    assert_eq!(balanced_split(&[1, 1, 1, 1, 10]), 4);
    assert_eq!(balanced_split(&[10, 1, 1, 1, 1]), 1);
}

#[test]
fn balanced_split_prefers_first_on_ties() {
    // breaks before word 1 and word 2 both leave a gap of 3
    assert_eq!(balanced_split(&[2, 2, 2]), 1);
    assert_eq!(balanced_split(&[3, 3]), 1);
}
