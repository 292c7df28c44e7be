use autovideo::identifier::elongate;

#[test]
fn pads_leading_with_x() {
    assert_eq!(elongate("abc", 'X', 5, true), "XXabc");
}

#[test]
fn pads_trailing_with_space() {
    assert_eq!(elongate("ab", ' ', 4, false), "ab  ");
}

#[test]
fn pads_leading_with_space() {
    assert_eq!(elongate("ab", ' ', 4, true), "  ab");
}

#[test]
fn never_truncates() {
    assert_eq!(elongate("abcdef", 'X', 4, true), "abcdef");
    assert_eq!(elongate("abcdef", 'X', 4, false), "abcdef");
}

#[test]
fn exact_width_is_unchanged() {
    assert_eq!(elongate("abcd", 'X', 4, true), "abcd");
}

#[test]
fn empty_name_becomes_all_padding() {
    assert_eq!(elongate("", 'X', 3, true), "XXX");
}

#[test]
fn encoding_is_idempotent() {
    let once = elongate("ab", 'X', 5, true);
    let twice = elongate(&once, 'X', 5, true);
    assert_eq!(once, twice);
    let once = elongate("name", ' ', 9, false);
    let twice = elongate(&once, ' ', 9, false);
    assert_eq!(once, twice);
}

#[test]
fn padded_width_equals_token_width() {
    let token = "PLACEHOLDER";
    let replacement = elongate("vid", 'X', token.len(), true);
    assert_eq!(replacement.len(), token.len());
}
