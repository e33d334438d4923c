use personal_site::phrases::{baked_phrases, choose_phrases, current_phrases};

fn strings(v: &[&str]) -> Vec<String> {
    v.iter().map(|s| s.to_string()).collect()
}

#[test]
fn current_phrases_trims_and_drops_blanks() {
    let raw = vec![
        Some("  BUILDS TECHNOLOGY ".to_string()),
        None,
        Some("   ".to_string()),
        Some("\tWRITES\n".to_string()),
    ];
    let out = current_phrases(&raw, &strings(&["FALLBACK"]));
    assert_eq!(out, strings(&["BUILDS TECHNOLOGY", "WRITES"]));
}

#[test]
fn current_phrases_falls_back_when_nothing_left() {
    let fallback = strings(&["A", "B"]);
    assert_eq!(current_phrases(&vec![], &fallback), fallback);
    assert_eq!(current_phrases(&vec![None, Some(" ".to_string())], &fallback), fallback);
}

#[test]
fn choose_phrases_keeps_nonempty_in_order() {
    let out = choose_phrases(strings(&["X", "", "Y"]), &strings(&["Z"]));
    assert_eq!(out, strings(&["X", "Y"]));
    assert_eq!(choose_phrases(strings(&["", ""]), &strings(&["Z"])), strings(&["Z"]));
}

#[test]
fn baked_phrases_default() {
    assert_eq!(baked_phrases(vec![]), strings(&["BUILDS TECHNOLOGY"]));
    assert_eq!(baked_phrases(strings(&["ONE", "TWO"])), strings(&["ONE", "TWO"]));
}

#[test]
fn current_phrases_trims_unicode_white_space_only() {
    let raw = vec![
        Some("\u{3000}MAKES\u{a0}THINGS\u{2029}".to_string()),
        Some("\u{200b}ZERO WIDTH\u{200b}".to_string()),
        Some("\u{85}\u{1680}\u{202f}".to_string()),
    ];
    let out = current_phrases(&raw, &strings(&["FALLBACK"]));
    assert_eq!(
        out,
        strings(&["MAKES\u{a0}THINGS", "\u{200b}ZERO WIDTH\u{200b}"])
    );
}
