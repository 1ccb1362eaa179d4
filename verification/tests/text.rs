use nix_search::text::{
    attribute_name_of, chars_of, eq_trimmed_ignore_case, fold_ascii, is_whitespace_char, same_text,
    tokenizer, trim_bounds,
};

fn tokens(s: &str) -> Vec<String> {
    tokenizer(s).into_iter().map(|t| t.into_owned()).collect()
}

fn trimmed(s: &str) -> String {
    let v = chars_of(s);
    let (lo, hi) = trim_bounds(&v);
    v[lo..hi].iter().collect()
}

#[test]
fn tokenizer_splits_on_single_spaces() {
    assert_eq!(tokens("a b c"), vec!["a", "b", "c"]);
    assert_eq!(tokens("GNU hello program"), vec!["GNU", "hello", "program"]);
}

#[test]
fn tokenizer_keeps_empty_tokens_around_repeated_spaces() {
    assert_eq!(tokens("a  b"), vec!["a", "", "b"]);
    assert_eq!(tokens(" a "), vec!["", "a", ""]);
    assert_eq!(tokens("   "), vec!["", "", "", ""]);
}

#[test]
fn tokenizer_gives_one_empty_token_for_the_empty_string() {
    assert_eq!(tokens(""), vec![""]);
}

#[test]
fn tokenizer_preserves_case_and_punctuation() {
    assert_eq!(tokens("Hello hello"), vec!["Hello", "hello"]);
    assert_eq!(tokens("a,b. c!"), vec!["a,b.", "c!"]);
}

#[test]
fn tokenizer_splits_on_nothing_but_the_space() {
    assert_eq!(tokens("a\tb\nc"), vec!["a\tb\nc"]);
    assert_eq!(tokens("a\u{a0}b"), vec!["a\u{a0}b"]);
}

#[test]
fn tokenizer_handles_text_beyond_ascii() {
    assert_eq!(tokens("héllo wörld ñ"), vec!["héllo", "wörld", "ñ"]);
    assert_eq!(tokens("日本語 テキスト"), vec!["日本語", "テキスト"]);
}

#[test]
fn tokenizer_agrees_with_split_of_std() {
    for s in ["", " ", "a", "a b", " a  b ", "x y z  ", "héé  ü", "one two  three   four"] {
        let expected: Vec<String> = s.split(' ').map(|t| t.to_string()).collect();
        assert_eq!(tokens(s), expected);
    }
}

#[test]
fn attribute_name_is_what_follows_the_second_separator() {
    assert_eq!(
        attribute_name_of("legacyPackages.x86_64-linux.hello"),
        Some("hello".to_string())
    );
}

#[test]
fn attribute_name_keeps_later_separators() {
    assert_eq!(
        attribute_name_of("legacyPackages.x86_64-linux.python3Packages.numpy"),
        Some("python3Packages.numpy".to_string())
    );
    assert_eq!(attribute_name_of("..x"), Some("x".to_string()));
    assert_eq!(attribute_name_of("a.b.."), Some(".".to_string()));
}

#[test]
fn attribute_name_is_missing_with_fewer_than_two_separators() {
    assert_eq!(attribute_name_of(""), None);
    assert_eq!(attribute_name_of("hello"), None);
    assert_eq!(attribute_name_of("legacyPackages.hello"), None);
}

#[test]
fn attribute_name_is_missing_where_nothing_follows() {
    assert_eq!(attribute_name_of("legacyPackages.x86_64-linux."), None);
    assert_eq!(attribute_name_of(".."), None);
}

#[test]
fn attribute_name_handles_text_beyond_ascii() {
    assert_eq!(attribute_name_of("é.ü.ñandú"), Some("ñandú".to_string()));
}

#[test]
fn chars_of_gives_the_characters_in_order() {
    assert_eq!(chars_of(""), Vec::<char>::new());
    assert_eq!(chars_of("aé日"), vec!['a', 'é', '日']);
}

#[test]
fn same_text_compares_character_by_character() {
    assert!(same_text("", ""));
    assert!(same_text("run", "run"));
    assert!(!same_text("run", "Run"));
    assert!(!same_text("run", "runs"));
    assert!(!same_text("run", ""));
}

#[test]
fn white_space_is_that_of_unicode() {
    let mut c = 0u32;
    while c <= 0x10FFFF {
        if let Some(ch) = char::from_u32(c) {
            assert_eq!(is_whitespace_char(ch), ch.is_whitespace(), "U+{:04X}", c);
        }
        c += 1;
    }
}

#[test]
fn folding_lowers_ascii_capitals_only() {
    let mut c = 0u32;
    while c <= 0x10FFFF {
        if let Some(ch) = char::from_u32(c) {
            assert_eq!(fold_ascii(ch), ch.to_ascii_lowercase() as u32, "U+{:04X}", c);
        }
        c += 1;
    }
    assert_eq!(fold_ascii('A'), 'a' as u32);
    assert_eq!(fold_ascii('Z'), 'z' as u32);
    assert_eq!(fold_ascii('É'), 'É' as u32);
}

#[test]
fn trim_bounds_agree_with_trim_of_std() {
    for s in [
        "",
        " ",
        "\t\n ",
        "hello",
        "  hello",
        "hello  ",
        " \thello world\n ",
        "\u{3000}hello\u{a0}",
        " a ",
        "\u{2003}é \u{2003}",
    ] {
        assert_eq!(trimmed(s), s.trim(), "{:?}", s);
    }
}

#[test]
fn trim_bounds_of_a_blank_text_meet() {
    let v = chars_of(" \t ");
    let (lo, hi) = trim_bounds(&v);
    assert_eq!(lo, hi);
}

#[test]
fn exact_comparison_trims_the_query() {
    assert!(eq_trimmed_ignore_case("hello", "hello"));
    assert!(eq_trimmed_ignore_case("  hello\n", "hello"));
    assert!(eq_trimmed_ignore_case("\thello ", "hello"));
}

#[test]
fn exact_comparison_ignores_ascii_case() {
    assert!(eq_trimmed_ignore_case("HeLLo", "hello"));
    assert!(eq_trimmed_ignore_case("hello", "HELLO"));
    assert!(!eq_trimmed_ignore_case("é", "É"));
    assert!(eq_trimmed_ignore_case("caFÉ", "CAfÉ"));
}

#[test]
fn exact_comparison_does_not_trim_the_identifier() {
    assert!(!eq_trimmed_ignore_case("hello", " hello"));
    assert!(!eq_trimmed_ignore_case(" hello", " hello"));
}

#[test]
fn exact_comparison_wants_the_whole_identifier() {
    assert!(!eq_trimmed_ignore_case("hell", "hello"));
    assert!(!eq_trimmed_ignore_case("hello world", "hello"));
    assert!(!eq_trimmed_ignore_case("", "hello"));
    assert!(eq_trimmed_ignore_case("", ""));
    assert!(eq_trimmed_ignore_case("   ", ""));
}

#[test]
fn exact_comparison_agrees_with_std() {
    let queries = ["hello", " Hello ", "HELLO\t", "help", "", "  ", "héllo", "HÉLLO"];
    let ids = ["hello", "Hello", "help", "", "héllo", "hÉllo"];
    for q in queries {
        for id in ids {
            assert_eq!(
                eq_trimmed_ignore_case(q, id),
                q.trim().eq_ignore_ascii_case(id),
                "{:?} {:?}",
                q,
                id
            );
        }
    }
}
