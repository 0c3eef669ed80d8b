use catcount::label::normalize_key;

#[test]
fn variants_of_one_label_share_a_key() {
    for variant in [
        "International Affairs",
        "International Affairs.",
        "International affairs",
        "  international \t AFFAIRS .. ",
        "\u{3000}International\u{a0}Affairs.",
    ] {
        assert_eq!(normalize_key(variant), "international affairs");
    }
}

#[test]
fn synonyms_keep_their_own_keys() {
    assert_eq!(normalize_key("Tech"), "tech");
    assert_eq!(normalize_key("Technology"), "technology");
    assert_ne!(normalize_key("Sports"), normalize_key("Sport"));
}

#[test]
fn periods_inside_a_label_stay() {
    assert_eq!(normalize_key("U.S. Politics."), "u.s. politics");
    assert_eq!(normalize_key("a . b"), "a . b");
}

#[test]
fn labels_of_padding_alone_have_no_name() {
    for label in ["", " ", "...", " . \n. ", "\u{3000}"] {
        assert_eq!(normalize_key(label), "(none)");
    }
    assert_eq!(normalize_key("(None)"), "(none)");
}

#[test]
fn other_scripts_are_folded_too() {
    assert_eq!(normalize_key("\u{c9}CONOMIE"), "\u{e9}conomie");
    assert_eq!(normalize_key("\u{3a3}\u{3a3}"), "\u{3c3}\u{3c2}");
    assert_eq!(normalize_key("\u{2003}\u{c9}t\u{e9}\u{2028}"), "\u{e9}t\u{e9}");
}

#[test]
fn periods_at_the_start_belong_to_the_label() {
    assert_eq!(normalize_key(".NET"), ".net");
    assert_eq!(normalize_key(" .NET. "), ".net");
    assert_eq!(normalize_key("NET"), "net");
    assert_ne!(normalize_key(".NET"), normalize_key("NET"));
    assert_eq!(normalize_key(". Arts"), ". arts");
    assert_eq!(normalize_key(".  Arts"), ". arts");
    assert_eq!(normalize_key("...and more..."), "...and more");
}

#[test]
fn the_key_of_a_key_is_that_key() {
    for label in ["", "..", "(None)", " US  Politics. ", ".NET", "a . b .", "\u{c9}T\u{c9}"] {
        let key = normalize_key(label);
        assert_eq!(normalize_key(&key), key);
    }
}

#[test]
fn variants_of_any_label_share_its_key() {
    for s in ["", "...", "US Politics", ".NET Core 9.0", "\u{c9}conomie du Sud", " a\tb "] {
        let key = normalize_key(s);
        assert_eq!(normalize_key(&format!("{s}.")), key);
        assert_eq!(normalize_key(&format!("{s} ")), key);
        assert_eq!(normalize_key(&format!("{s} . ")), key);
        assert_eq!(normalize_key(&format!("\t{s}")), key);
        assert_eq!(normalize_key(&s.replace(' ', "  ")), key);
        assert_eq!(normalize_key(&s.to_ascii_uppercase()), key);
    }
}

#[test]
fn unusual_white_space_around_ascii_words_counts_as_white_space() {
    assert_eq!(normalize_key("\u{2003}US\u{3000}POLITICS\u{85}."), "us politics");
}

#[test]
fn a_plain_label_has_the_same_key() {
    assert_eq!(normalize_key("  \u{c9}t\u{e9} \t du Sud. "), normalize_key("\u{c9}t\u{e9} du Sud"));
}
