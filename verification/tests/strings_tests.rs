use csv::strings::{chars_of, is_white_space, str_equal, trim_text};

#[test]
fn white_space_is_what_unicode_says() {
    for code in 0..=0x10ffffu32 {
        if let Some(c) = char::from_u32(code) {
            assert_eq!(is_white_space(c), c.is_whitespace(), "U+{:04X}", code);
        }
    }
}

#[test]
fn trim_text_drops_white_space_at_both_ends_only() {
    let samples = [
        "",
        " ",
        "a",
        " a",
        "a ",
        " a b ",
        "\t\n\u{b}\u{c}\r x \u{85}\u{a0}",
        "\u{1680}\u{2000}\u{200a}\u{2028}\u{2029}\u{202f}\u{205f}\u{3000}",
        "\u{3000}größe\u{2003}",
        "\u{200b}a\u{200b}",
        "  \u{1F600}  ",
    ];
    for sample in samples {
        assert_eq!(trim_text(sample), sample.trim());
    }
}

#[test]
fn chars_of_gives_the_characters() {
    assert_eq!(chars_of("aé\u{1F600}"), vec!['a', 'é', '\u{1F600}']);
    assert_eq!(chars_of(""), Vec::<char>::new());
}

#[test]
fn str_equal_compares_texts() {
    assert!(str_equal("select", "select"));
    assert!(!str_equal("select", "selec"));
    assert!(!str_equal("a", "A"));
    assert!(str_equal("", ""));
}
