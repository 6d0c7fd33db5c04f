use doc_search::matching::count_matches;
use doc_search::matching::matches_at;
use doc_search::text::to_chars;

fn chars(text: &str) -> Vec<char> {
    text.chars().collect()
}

#[test]
fn to_chars_gives_the_characters_in_order() {
    assert_eq!(to_chars("abc"), vec!['a', 'b', 'c']);
    assert_eq!(to_chars(""), Vec::<char>::new());
    assert_eq!(to_chars("\u{e9}\u{4e2d}z"), vec!['\u{e9}', '\u{4e2d}', 'z']);
}

#[test]
fn matches_at_looks_at_one_place() {
    let text = chars("abcabc");
    assert!(matches_at(&text, &chars("abc"), 0));
    assert!(matches_at(&text, &chars("abc"), 3));
    assert!(!matches_at(&text, &chars("abc"), 1));
    assert!(matches_at(&text, &chars("ca"), 2));
    assert!(matches_at(&text, &chars(""), 6));
    assert!(!matches_at(&text, &chars("abd"), 0));
}

#[test]
fn count_matches_resumes_behind_each_occurrence() {
    assert_eq!(count_matches(&chars("aaaa"), &chars("aa")), 2);
    assert_eq!(count_matches(&chars("aaaaa"), &chars("aa")), 2);
    assert_eq!(count_matches(&chars("abababa"), &chars("aba")), 2);
    assert_eq!(count_matches(&chars("sample content"), &chars("sample")), 1);
    assert_eq!(count_matches(&chars("sample"), &chars("sample content")), 0);
    assert_eq!(count_matches(&chars("sample"), &chars("sample")), 1);
    assert_eq!(count_matches(&chars(""), &chars("a")), 0);
}

#[test]
fn count_matches_counts_no_empty_pattern() {
    assert_eq!(count_matches(&chars("abc"), &chars("")), 0);
    assert_eq!(count_matches(&chars(""), &chars("")), 0);
}

#[test]
fn count_matches_agrees_with_the_standard_count() {
    let texts = ["", "a", "aaaaaaa", "abcabcabcab", "mississippi", "\u{e9}\u{e9}\u{e9}\u{e9}", "aXbXXcXXXd"];
    let patterns = ["a", "aa", "aaa", "abc", "bca", "ss", "issi", "i", "\u{e9}\u{e9}", "X", "XX", "q"];
    for text in texts {
        for pattern in patterns {
            assert_eq!(count_matches(&chars(text), &chars(pattern)), text.matches(pattern).count());
        }
    }
}
