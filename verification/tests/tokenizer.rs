use doc_search::tokenizer::char_is_whitespace;
use doc_search::tokenizer::tokenize;
use doc_search::tokenizer::tokenize_chars;

fn terms(words: &[&str]) -> Vec<Vec<char>> {
    words.iter().map(|w| w.chars().collect()).collect()
}

#[test]
fn tokenize_splits_at_white_space() {
    assert_eq!(tokenize("sample content"), terms(&["sample", "content"]));
    assert_eq!(tokenize("  to be,\tor not\nto be.  "), terms(&["to", "be,", "or", "not", "to", "be."]));
    assert_eq!(tokenize("one"), terms(&["one"]));
}

#[test]
fn tokenize_gives_no_terms_for_an_empty_or_blank_text() {
    assert_eq!(tokenize(""), terms(&[]));
    assert_eq!(tokenize(" "), terms(&[]));
    assert_eq!(tokenize(" \t\r\n\u{a0}\u{3000}"), terms(&[]));
}

#[test]
fn tokenize_keeps_punctuation_and_case() {
    assert_eq!(tokenize("Hello, happy tax payer!"), terms(&["Hello,", "happy", "tax", "payer!"]));
    assert_eq!(tokenize("faster-than-light \"normal space\"."),
               terms(&["faster-than-light", "\"normal", "space\"."]));
}

#[test]
fn tokenize_can_be_run_again() {
    let text = "a b  c";
    assert_eq!(tokenize(text), tokenize(text));
    let chars: Vec<char> = text.chars().collect();
    assert_eq!(tokenize_chars(&chars), tokenize(text));
}

#[test]
fn tokenize_agrees_with_the_standard_split() {
    let texts = ["", "a", " a", "a ", "a  b", "\u{2000}x\u{200a}y\u{205f}z\u{202f}", "x\u{1680}y\u{2029}z",
                 "no\u{200b}break", "tab\tand\u{b}vt\u{c}ff\u{85}nel", "\u{e9}t\u{e9} \u{4e2d}\u{6587}\u{3000}\u{65e5}\u{672c}"];
    for text in texts {
        let expected: Vec<Vec<char>> = text.split_whitespace().map(|w| w.chars().collect()).collect();
        assert_eq!(tokenize(text), expected);
    }
}

#[test]
fn white_space_is_what_the_standard_calls_white_space() {
    for code in 0u32..0x3100 {
        if let Some(c) = char::from_u32(code) {
            assert_eq!(char_is_whitespace(c), c.is_whitespace());
        }
    }
    assert!(!char_is_whitespace('\u{feff}'));
    assert!(!char_is_whitespace('\u{10ffff}'));
}
