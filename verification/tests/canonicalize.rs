use ncp_engine::canonicalize::{canonicalize_latin, compose_or_first};

#[test]
fn canonicalizes_composable_pairs() {
    assert_eq!(canonicalize_latin("a\u{0308}"), 'ä');
    assert_eq!(canonicalize_latin("は\u{3099}"), 'ば');
}

#[test]
fn preserves_existing_fallbacks() {
    assert_eq!(canonicalize_latin("\r\n"), '\n');
    assert_eq!(canonicalize_latin("q\u{0308}"), 'q');
    assert_eq!(canonicalize_latin("a\u{0308}\u{0301}"), 'a');
    assert_eq!(canonicalize_latin("ä"), 'ä');
}

#[test]
fn single_characters_are_kept() {
    assert_eq!(canonicalize_latin("x"), 'x');
    assert_eq!(canonicalize_latin("\r"), '\r');
    assert_eq!(canonicalize_latin("\n\r"), '\n');
}

#[test]
fn composition_result_decides() {
    assert_eq!(compose_or_first('a', Some('ä')), 'ä');
    assert_eq!(compose_or_first('q', None), 'q');
}
