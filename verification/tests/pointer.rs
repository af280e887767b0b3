//! JSON pointers: their tokens, and the index a token spells.

use musubi::state::error::TreeError;
use musubi::state::pointer::{array_index, tokens, ArrayIndex};

#[test]
fn the_empty_pointer_addresses_the_whole_document() {
    assert_eq!(tokens("").unwrap(), Vec::<String>::new());
}

#[test]
fn a_pointer_must_start_with_a_slash() {
    assert!(matches!(tokens("items/0"), Err(TreeError::Pointer { .. })));
}

#[test]
fn a_trailing_slash_addresses_the_empty_key() {
    assert_eq!(tokens("/a/").unwrap(), ["a", ""]);
    assert_eq!(tokens("/").unwrap(), [""]);
}

#[test]
fn tilde_one_is_unescaped_before_tilde_zero() {
    // `~01` must come back as `~1`, not as `/`.
    assert_eq!(tokens("/~01").unwrap(), ["~1"]);
    assert_eq!(tokens("/a~1b").unwrap(), ["a/b"]);
    assert_eq!(tokens("/c~0d").unwrap(), ["c~d"]);
    assert_eq!(tokens("/~0~1~0").unwrap(), ["~/~"]);
}

#[test]
fn an_index_token_is_a_dash_or_digits_without_leading_zeros() {
    assert_eq!(array_index("-"), Some(ArrayIndex::End));
    assert_eq!(array_index("0"), Some(ArrayIndex::At(0)));
    assert_eq!(array_index("12"), Some(ArrayIndex::At(12)));
    assert_eq!(array_index("01"), None);
    assert_eq!(array_index(""), None);
    assert_eq!(array_index("1a"), None);
    assert_eq!(array_index("-1"), None);
    assert_eq!(array_index(" 1"), None);
}

#[test]
fn an_index_token_past_the_machine_word_is_no_index() {
    assert_eq!(
        array_index("18446744073709551615"),
        usize::try_from(u64::MAX).ok().map(ArrayIndex::At)
    );
    assert_eq!(array_index("18446744073709551616"), None);
    assert_eq!(array_index("99999999999999999999999999"), None);
}

#[test]
fn a_tilde_that_escapes_nothing_stands_for_itself() {
    assert_eq!(tokens("/a~").unwrap(), ["a~"]);
    assert_eq!(tokens("/a~2").unwrap(), ["a~2"]);
    assert_eq!(tokens("/~~1").unwrap(), ["~/"]);
    assert_eq!(tokens("/~~").unwrap(), ["~~"]);
    assert_eq!(tokens("/~a~0").unwrap(), ["~a~"]);
}
