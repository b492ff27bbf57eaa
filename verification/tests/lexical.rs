use lattice_bridge::lexical::{normalize, token_overlap_counts, tokens};

#[test]
fn normalize_lowercases_and_strips() {
    assert_eq!(normalize("Heart-Disease"), "heart disease");
    assert_eq!(normalize("  Foo  Bar "), "foo bar");
}

#[test]
fn normalize_empty_and_punctuation_only() {
    assert_eq!(normalize(""), "");
    assert_eq!(normalize("--!!--"), "");
}

#[test]
fn normalize_keeps_digits_and_unicode_letters() {
    assert_eq!(normalize("IAO_0000115"), "iao 0000115");
    assert_eq!(normalize("Éclair\tCafé"), "éclair café");
}

#[test]
fn tokens_are_distinct_in_first_order() {
    assert_eq!(tokens("b a b  c a"), vec!["b".to_string(), "a".to_string(), "c".to_string()]);
    assert!(tokens("   ").is_empty());
}

#[test]
fn token_overlap_identical() {
    let (inter, union) = token_overlap_counts("foo bar", "foo bar");
    assert_eq!((inter, union), (2, 2));
    assert!((inter as f64 / union as f64 - 1.0).abs() < 1e-9);
}

#[test]
fn token_overlap_disjoint() {
    let (inter, union) = token_overlap_counts("foo", "bar");
    assert_eq!((inter, union), (0, 2));
}

#[test]
fn token_overlap_partial_and_symmetric() {
    assert_eq!(token_overlap_counts("heart disease", "heart attack risk"), (1, 4));
    assert_eq!(token_overlap_counts("heart attack risk", "heart disease"), (1, 4));
    assert_eq!(token_overlap_counts("", ""), (0, 0));
}

#[test]
fn token_boundaries_are_the_unicode_white_space() {
    for n in 0u32..0x3100 {
        if let Some(c) = char::from_u32(n) {
            let expected = if c.is_whitespace() { 2 } else { 1 };
            assert_eq!(tokens(&format!("x{c}y")).len(), expected, "U+{n:04X}");
        }
    }
    assert_eq!(tokens("a\u{3000}b\u{A0}c\u{200B}d"), vec!["a", "b", "c\u{200B}d"]);
}
