use journey_bot::preprocess::preprocess_content;

#[test]
fn lowercases_and_strips_punctuation() {
    let r = preprocess_content("Hello, World!").unwrap();
    assert_eq!(r, b"hello world".to_vec());
}

#[test]
fn newlines_become_spaces() {
    let r = preprocess_content("first\nsecond").unwrap();
    assert_eq!(r, b"first second".to_vec());
}

#[test]
fn diacritics_are_stripped() {
    let r = preprocess_content("caf\u{e9} cr\u{e8}me").unwrap();
    assert_eq!(r, b"cafe creme".to_vec());
}

#[test]
fn trailing_digits_and_spaces_are_trimmed() {
    let r = preprocess_content("spam message 123").unwrap();
    assert_eq!(r, b"spam message".to_vec());
    // digits shielded by trailing spaces are not trailing digits
    let r = preprocess_content("  spam message 123  ").unwrap();
    assert_eq!(r, b"spam message 123".to_vec());
}

#[test]
fn cursive_lookalikes_are_mapped_back() {
    // U+1D608 is the cursive capital A lookalike; it maps to a plain `A`
    // after the (earlier) lowercase pass, so it survives in upper case.
    let r = preprocess_content("\u{1D608}bc").unwrap();
    assert_eq!(r, b"Abc".to_vec());
    // U+1D622 opens the cursive small letters.
    let r = preprocess_content("\u{1D622}bc").unwrap();
    assert_eq!(r, b"abc".to_vec());
}

#[test]
fn punctuation_only_content_is_rejected() {
    let e = preprocess_content("!!! ... ???").unwrap_err();
    assert_eq!(e.message(), "Message must not contain only punctuation.");
}

#[test]
fn empty_content_is_rejected() {
    assert!(preprocess_content("").is_err());
    assert!(preprocess_content("   ").is_err());
}
