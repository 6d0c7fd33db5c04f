use doc_search::dictionary::term_order;
use doc_search::dictionary::StoredPosting;
use doc_search::dictionary::TermDictionary;
use doc_search::dictionary::TermOrder;

fn chars(text: &str) -> Vec<char> {
    text.chars().collect()
}

fn postings(dictionary: &TermDictionary, term: &str) -> Vec<(usize, u64)> {
    match dictionary.lookup(&chars(term)) {
        Some(found) => found.iter().map(|p: &StoredPosting| (p.document, p.frequency)).collect(),
        None => vec![],
    }
}

fn fruit() -> TermDictionary {
    let mut dictionary = TermDictionary::new();
    for (term, document) in [("pear", 0), ("apple", 0), ("pear", 0), ("fig", 1), ("apple", 1),
                             ("apple", 1), ("apple", 3), ("zest", 3)] {
        dictionary.add_occurrence(chars(term), document);
    }
    dictionary
}

#[test]
fn term_order_is_the_dictionary_order() {
    assert_eq!(term_order(&chars("a"), &chars("b")), TermOrder::Before);
    assert_eq!(term_order(&chars("b"), &chars("a")), TermOrder::After);
    assert_eq!(term_order(&chars("a"), &chars("a")), TermOrder::Same);
    assert_eq!(term_order(&chars(""), &chars("")), TermOrder::Same);
    assert_eq!(term_order(&chars(""), &chars("a")), TermOrder::Before);
    assert_eq!(term_order(&chars("ab"), &chars("abc")), TermOrder::Before);
    assert_eq!(term_order(&chars("abd"), &chars("abc")), TermOrder::After);
    assert_eq!(term_order(&chars("B"), &chars("a")), TermOrder::Before);
}

#[test]
fn term_order_agrees_with_the_standard_order() {
    let words = ["", "a", "A", "ab", "abc", "abd", "b", "\u{e9}", "z\u{e9}", "\u{4e2d}", "\u{10000}", "~"];
    for x in words {
        for y in words {
            let expected = match x.cmp(y) {
                std::cmp::Ordering::Less => TermOrder::Before,
                std::cmp::Ordering::Equal => TermOrder::Same,
                std::cmp::Ordering::Greater => TermOrder::After,
            };
            assert_eq!(term_order(&chars(x), &chars(y)), expected);
        }
    }
}

#[test]
fn new_dictionary_lists_no_term() {
    let dictionary = TermDictionary::new();

    assert!(dictionary.lookup(&chars("apple")).is_none());
    assert!(dictionary.lookup(&chars("")).is_none());
    assert_eq!(dictionary.terms(), Vec::<String>::new());
}

#[test]
fn add_occurrence_counts_per_document() {
    let dictionary = fruit();

    assert_eq!(postings(&dictionary, "apple"), vec![(0, 1), (1, 2), (3, 1)]);
    assert_eq!(postings(&dictionary, "fig"), vec![(1, 1)]);
    assert_eq!(postings(&dictionary, "pear"), vec![(0, 2)]);
    assert_eq!(postings(&dictionary, "zest"), vec![(3, 1)]);
}

#[test]
fn lookup_finds_no_term_that_was_not_added() {
    let dictionary = fruit();

    for term in ["", "a", "appl", "apples", "figs", "pea", "zesty", "Apple"] {
        assert!(dictionary.lookup(&chars(term)).is_none());
    }
}

#[test]
fn terms_are_listed_once_and_in_order() {
    let dictionary = fruit();

    assert_eq!(dictionary.terms(), vec!["apple", "fig", "pear", "zest"]);
}

#[test]
fn terms_stay_in_order_whatever_the_order_of_entry() {
    let mut dictionary = TermDictionary::new();
    let mut expected: Vec<String> = Vec::new();
    let mut seed: u64 = 7;
    for _ in 0..300 {
        seed = seed.wrapping_mul(6364136223846793005).wrapping_add(1442695040888963407);
        let term = format!("t{}", (seed >> 33) % 97);
        dictionary.add_occurrence(chars(&term), 0);
        expected.push(term);
    }
    expected.sort();
    expected.dedup();

    assert_eq!(dictionary.terms(), expected);
}
