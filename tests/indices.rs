use spike_envelope::index::parse_index;

#[test]
fn plain_digits_parse() {
    assert_eq!(parse_index("0"), Some(0));
    assert_eq!(parse_index("42"), Some(42));
    assert_eq!(parse_index("007"), Some(7));
}

#[test]
fn leading_plus_is_accepted() {
    assert_eq!(parse_index("+5"), Some(5));
    assert_eq!(parse_index("+"), None);
    assert_eq!(parse_index("++5"), None);
}

#[test]
fn other_text_is_refused() {
    assert_eq!(parse_index(""), None);
    assert_eq!(parse_index("abc"), None);
    assert_eq!(parse_index("-1"), None);
    assert_eq!(parse_index("-0"), None);
    assert_eq!(parse_index(" 5"), None);
    assert_eq!(parse_index("5 "), None);
    assert_eq!(parse_index("1.0"), None);
    assert_eq!(parse_index("1a"), None);
}

#[test]
fn index_agrees_with_std_at_the_limit() {
    let max = usize::MAX.to_string();
    assert_eq!(parse_index(&max), Some(usize::MAX));
    let over = format!("{}0", max);
    assert_eq!(parse_index(&over), None);
    assert_eq!(parse_index(&over), over.parse::<usize>().ok());
    for s in ["12", "+3", "-3", "x", "", "99999999999999999999999"] {
        assert_eq!(parse_index(s), s.parse::<usize>().ok());
    }
}
