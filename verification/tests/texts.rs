use catcount::text::{decimal_text, fold, pad_left, pad_right, text_before, trim};

#[test]
fn numbers_in_decimal() {
    assert_eq!(decimal_text(0), "0");
    assert_eq!(decimal_text(27017), "27017");
    assert_eq!(decimal_text(-40), "-40");
    assert_eq!(decimal_text(i64::MAX), "9223372036854775807");
    assert_eq!(decimal_text(i64::MIN), "-9223372036854775808");
}

#[test]
fn padding_counts_characters() {
    assert_eq!(pad_right("\u{e9}t\u{e9}", 5), "\u{e9}t\u{e9}  ");
    assert_eq!(pad_left("12", 4), "  12");
    assert_eq!(pad_left("12345", 4), "12345");
    assert_eq!(pad_right("12345", 4), "12345");
}

#[test]
fn texts_are_ordered_as_strings_are() {
    let texts = ["", "A", "AB", "B", "a", "\u{e9}", "\u{ffff}", "\u{1f600}"];
    for (i, a) in texts.iter().enumerate() {
        for (j, b) in texts.iter().enumerate() {
            assert_eq!(text_before(a, b), i < j);
            assert_eq!(text_before(a, b), a < b);
        }
    }
}

#[test]
fn white_space_is_trimmed() {
    assert_eq!(trim(" \u{85}\u{a0}\u{1680}a b\u{2029}\u{202f}\u{205f}\t"), "a b");
    assert_eq!(trim(" \u{200b} "), "\u{200b}");
    assert_eq!(trim("\n"), "");
}

#[test]
fn white_space_is_that_of_the_standard_library() {
    for c in '\0'..=char::MAX {
        assert_eq!(trim(&c.to_string()).is_empty(), c.is_whitespace());
    }
}

#[test]
fn ascii_letters_are_folded() {
    assert_eq!(fold("US Politics [2026]"), "us politics [2026]");
}
