use mdnotes::text::{chars_equal, chars_of, chars_precede, lowercase_lengths, lowercase_of};

fn chars(s: &str) -> Vec<char> {
    s.chars().collect()
}

#[test]
fn chars_of_keeps_every_character() {
    assert_eq!(chars_of("a\u{e9}\u{65e5}\u{1f600}"), vec!['a', '\u{e9}', '\u{65e5}', '\u{1f600}']);
    assert_eq!(chars_of(""), Vec::<char>::new());
}

#[test]
fn lowercase_lowers_ascii_letters() {
    assert_eq!(lowercase_of("Hello World"), chars("hello world"));
    assert_eq!(lowercase_of("MD"), chars("md"));
}

#[test]
fn lowercase_leaves_caseless_characters() {
    assert_eq!(lowercase_of("a-1_\u{65e5}\u{672c}."), chars("a-1_\u{65e5}\u{672c}."));
    assert_eq!(lowercase_of(""), chars(""));
}

#[test]
fn lowercase_lowers_letters_beyond_ascii() {
    assert_eq!(lowercase_of("\u{c9}COLE"), chars("\u{e9}cole"));
    assert_eq!(lowercase_of("\u{130}x"), vec!['i', '\u{307}', 'x']);
}

#[test]
fn lowercase_goes_by_the_whole_text() {
    // A capital sigma that ends a word becomes the final small sigma.
    assert_eq!(lowercase_of("ΟΔΟΣ"), chars("οδος"));
    assert_eq!(lowercase_of("ΟΔΟΣ ΟΔΟΣ"), chars("οδος οδος"));
    assert_eq!(lowercase_of("ΟΔΟΣΑ"), chars("οδοσα"));
    assert_eq!(lowercase_of("Σ"), chars("σ"));
    assert_eq!(lowercase_of("οδος"), chars("οδος"));
    assert_eq!(lowercase_of("οδοσ"), chars("οδοσ"));
}

#[test]
fn lowercase_agrees_with_the_standard_library() {
    let texts = [
        "",
        "Stra\u{df}e \u{130} \u{c4}\u{d6}\u{dc} ABC xyz \u{416}",
        "ὈΔΥΣΣΕΎΣ",
        "ΟΔΟΣ-Χ ΟΔΟΣ. ΣΟΦΙΑ Σ",
        "Notes.MD",
        "\u{65e5}\u{672c}\u{8a9e} Hello",
    ];
    for text in texts.iter() {
        assert_eq!(lowercase_of(text), chars(&text.to_lowercase()));
    }
}

#[test]
fn lengths_of_the_lowercase_mappings() {
    assert_eq!(lowercase_lengths(&chars("aB\u{130}\u{65e5}\u{3a3}")), vec![1, 1, 2, 1, 1]);
    assert_eq!(lowercase_lengths(&chars("")), Vec::<usize>::new());
}

#[test]
fn lengths_agree_with_the_standard_library() {
    let text = "Stra\u{df}e \u{130} \u{c4}\u{d6}\u{dc} ABC xyz \u{416} ΟΔΟΣ";
    let expected: Vec<usize> = text.chars().map(|c| c.to_lowercase().count()).collect();
    assert_eq!(lowercase_lengths(&chars(text)), expected);
}

#[test]
fn chars_equal_compares_whole_texts() {
    assert!(chars_equal(&chars("md"), &chars("md")));
    assert!(!chars_equal(&chars("md"), &chars("mdc")));
    assert!(!chars_equal(&chars("md"), &chars("mb")));
    assert!(chars_equal(&chars(""), &chars("")));
}

#[test]
fn chars_precede_is_lexicographic() {
    assert!(chars_precede(&chars("a"), &chars("b")));
    assert!(chars_precede(&chars("a"), &chars("ab")));
    assert!(chars_precede(&chars(""), &chars("a")));
    assert!(chars_precede(&chars("ab"), &chars("b")));
    assert!(!chars_precede(&chars("b"), &chars("a")));
    assert!(!chars_precede(&chars("a"), &chars("a")));
    assert!(!chars_precede(&chars("ab"), &chars("a")));
    assert!(!chars_precede(&chars(""), &chars("")));
}

#[test]
fn chars_precede_agrees_with_string_order() {
    let words = ["", "a", "A", "ab", "b", "\u{e9}", "z", "\u{65e5}", "a\u{1f600}", "aa", "οδος", "οδοσ"];
    for a in words.iter() {
        for b in words.iter() {
            assert_eq!(chars_precede(&chars(a), &chars(b)), a < b);
        }
    }
}
