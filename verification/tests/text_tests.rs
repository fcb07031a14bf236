use tfidf_search::text::{
    chars_of, is_punctuation, is_whitespace, normalize, split_normalized, split_words,
    strip_punctuation,
};

#[test]
fn punctuation_set_is_ascii_punctuation() {
    let mut u: u32 = 0;
    while u <= 0x10FFFF {
        if let Some(c) = char::from_u32(u) {
            assert_eq!(is_punctuation(c), c.is_ascii_punctuation(), "U+{:04X}", u);
        }
        u += 1;
    }
}

#[test]
fn punctuation_set_members() {
    for c in "!\"#$%&'()*+,;./:<=>?@[\\]^_`{|}~-".chars() {
        assert!(is_punctuation(c), "{}", c);
    }
    for c in "aZ09 \t\u{e9}\u{2014}".chars() {
        assert!(!is_punctuation(c), "{}", c);
    }
}

#[test]
fn whitespace_set_is_unicode_white_space() {
    let mut u: u32 = 0;
    while u <= 0x10FFFF {
        if let Some(c) = char::from_u32(u) {
            assert_eq!(is_whitespace(c), c.is_whitespace(), "U+{:04X}", u);
        }
        u += 1;
    }
}

#[test]
fn chars_of_gives_the_characters() {
    assert_eq!(chars_of("a\u{e9}z"), vec!['a', '\u{e9}', 'z']);
    assert_eq!(chars_of(""), Vec::<char>::new());
}

#[test]
fn strip_punctuation_keeps_letters_and_digits() {
    assert_eq!(strip_punctuation("a.b,c!"), "abc");
    assert_eq!(strip_punctuation("don't"), "dont");
    assert_eq!(strip_punctuation("e-mail_2"), "email2");
    assert_eq!(strip_punctuation("..."), "");
    assert_eq!(strip_punctuation(""), "");
    assert_eq!(strip_punctuation("caf\u{e9}\u{2014}x"), "caf\u{e9}\u{2014}x");
}

#[test]
fn normalize_lowercases_then_strips() {
    assert_eq!(normalize("Hello,"), "hello");
    assert_eq!(normalize("ABC"), "abc");
    assert_eq!(normalize("U.S.A."), "usa");
    assert_eq!(normalize("\u{c9}COLE!"), "\u{e9}cole");
    assert_eq!(normalize("x86_64"), "x8664");
    assert_eq!(normalize("?!"), "");
}

#[test]
fn normalize_is_idempotent_on_samples() {
    let samples = [
        "Hello, World!",
        "ALREADY lower",
        "apple",
        "",
        "...",
        "\u{130}stanbul",
        "\u{3a3}\u{391}\u{3a3}.",
        "\u{1c5}-\u{1c4}",
        "Stra\u{df}e",
        "\u{1e9e}",
        "A\u{3a3}.B",
    ];
    for s in samples.iter() {
        let once = normalize(s);
        let twice = normalize(&once);
        assert_eq!(once, twice, "{:?}", s);
    }
}

#[test]
fn normalize_is_idempotent_on_every_cased_character() {
    let mut u: u32 = 0;
    while u < 0x20000 {
        if let Some(c) = char::from_u32(u) {
            let mut s = String::new();
            s.push(c);
            let once = normalize(&s);
            let twice = normalize(&once);
            assert_eq!(once, twice, "U+{:04X}", u);
        }
        u += 1;
    }
}

#[test]
fn split_words_splits_at_whitespace() {
    assert_eq!(split_words("apple apple banana"), vec!["apple", "apple", "banana"]);
    assert_eq!(split_words("  a \t\n b\u{a0}c\u{3000}"), vec!["a", "b", "c"]);
    assert_eq!(split_words(""), Vec::<String>::new());
    assert_eq!(split_words(" \n\t "), Vec::<String>::new());
    assert_eq!(split_words("one"), vec!["one"]);
    assert_eq!(split_words("a,b c"), vec!["a,b", "c"]);
}

#[test]
fn split_words_agrees_with_split_whitespace() {
    let texts = [
        "The quick  brown\tfox\r\njumps\u{2003}over\u{85}the lazy dog ",
        "\u{1680}x\u{2028}y\u{2029}z\u{202f}w\u{205f}v",
        "no-break\u{a0}space and zero\u{200b}width",
        "",
    ];
    for text in texts.iter() {
        let expected: Vec<String> = text.split_whitespace().map(|w| w.to_string()).collect();
        assert_eq!(split_words(text), expected, "{:?}", text);
    }
}

#[test]
fn split_normalized_keeps_empty_words() {
    assert_eq!(split_normalized("Hi, -- there!"), vec!["hi", "", "there"]);
    assert_eq!(split_normalized("Apple APPLE apple."), vec!["apple", "apple", "apple"]);
}
