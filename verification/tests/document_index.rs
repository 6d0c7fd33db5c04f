use doc_search::indexing::search_by_string_match;
use doc_search::indexing::DocumentIndex;
use doc_search::indexing::InputDocument;

fn hit(name: &str, frequency: u64) -> (String, u64) {
    (name.to_string(), frequency)
}

fn space_travel() -> Vec<InputDocument> {
    vec![InputDocument::new("one",
                            "Consequently, spacecraft at warp velocity can continue to interact with objects in \"normal space\"."),
         InputDocument::new("two",
                            "The Hitchhiker's Guide to the Galaxy is a comedy science fiction series created by Douglas Adams."),
         InputDocument::new("three",
                            "The Infinite Improbability Drive is a faster-than-light drive. In the 2005 film, for instance, the first time the Improbability Drive is used, the entire ship, after traveling at extreme velocity, arrives at its destination, ends up as a giant ball of yarn for a few seconds, and the main characters are rendered as animated yarn dolls.")]
}

#[test]
fn can_build_empty_index() {
    let docs: Vec<InputDocument> = vec![];

    let index = DocumentIndex::build_index(&docs);
    assert!(index.is_ok());
}

#[test]
fn can_index_one_document() {
    let docs = vec![InputDocument::new("one", "sample content")];

    let index = DocumentIndex::build_index(&docs);
    assert!(index.is_ok());
}

#[test]
fn can_search_index_with_one_document() {
    let docs = vec![InputDocument::new("one", "sample content")];

    let index = DocumentIndex::build_index(&docs).unwrap();
    let results = index.search("sample");

    assert!(results.len() == 1);
    assert_eq!(results[0].0, "one");
    assert_eq!(results[0].1, 1)
}

// In "three" the word is followed by a comma, and a term keeps its
// punctuation: the index finds "velocity" in "one" alone, where a search for
// the letters finds it in both.
#[test]
fn can_search_index_with_many_document() {
    let docs = space_travel();

    let index = DocumentIndex::build_index(&docs).unwrap();
    let results = index.search("velocity");

    assert!(results.len() == 1);
    assert_eq!(results[0].0, "one");
    assert_eq!(results[0].1, 1);

    let with_comma = index.search("velocity,");
    assert_eq!(with_comma, vec![hit("three", 1)]);

    let by_letters = search_by_string_match("velocity", &docs);
    assert!(by_letters.len() == 2);
    assert_eq!(by_letters[0].0, "one");
    assert_eq!(by_letters[0].1, 1);

    assert_eq!(by_letters[1].0, "three");
    assert_eq!(by_letters[1].1, 1);
}

#[test]
fn index_returns_hits_in_corpus_order() {
    let docs = vec![InputDocument::new("one", "spacecraft at warp velocity can continue"),
                    InputDocument::new("two", "a comedy science fiction series"),
                    InputDocument::new("three", "after traveling at extreme velocity it arrives")];

    let index = DocumentIndex::build_index(&docs).unwrap();

    assert_eq!(index.search("velocity"), vec![hit("one", 1), hit("three", 1)]);
    assert_eq!(index.search("at"), vec![hit("one", 1), hit("three", 1)]);
    assert_eq!(index.search("comedy"), vec![hit("two", 1)]);
}

#[test]
fn index_counts_each_occurrence_of_a_term() {
    let docs = vec![InputDocument::new("a", "to be or not to be"),
                    InputDocument::new("b", "be"),
                    InputDocument::new("c", "maybe bee been"),
                    InputDocument::new("d", "be be be be")];

    let index = DocumentIndex::build_index(&docs).unwrap();

    assert_eq!(index.search("be"), vec![hit("a", 2), hit("b", 1), hit("d", 4)]);
    assert_eq!(index.search("to"), vec![hit("a", 2)]);
    assert_eq!(index.search("bee"), vec![hit("c", 1)]);
}

#[test]
fn index_does_not_fold_case() {
    let docs = vec![InputDocument::new("upper", "Sample"),
                    InputDocument::new("lower", "sample"),
                    InputDocument::new("both", "sample Sample SAMPLE")];

    let index = DocumentIndex::build_index(&docs).unwrap();

    assert_eq!(index.search("sample"), vec![hit("lower", 1), hit("both", 1)]);
    assert_eq!(index.search("Sample"), vec![hit("upper", 1), hit("both", 1)]);
    assert_eq!(index.search("SAMPLE"), vec![hit("both", 1)]);
    assert_eq!(index.search("sAMPLE"), vec![]);
}

#[test]
fn index_splits_at_every_kind_of_white_space() {
    let docs = vec![InputDocument::new("tabs", "alpha\tbeta\nalpha\r\nbeta\u{b}alpha\u{c}gamma"),
                    InputDocument::new("wide", "alpha\u{a0}beta\u{3000}alpha\u{2003}\u{2028}beta\u{85}x"),
                    InputDocument::new("none", "alpha\u{200b}beta")];

    let index = DocumentIndex::build_index(&docs).unwrap();

    assert_eq!(index.search("alpha"), vec![hit("tabs", 3), hit("wide", 2)]);
    assert_eq!(index.search("beta"), vec![hit("tabs", 2), hit("wide", 2)]);
    assert_eq!(index.search("alpha\u{200b}beta"), vec![hit("none", 1)]);
}

#[test]
fn index_has_no_empty_term_and_no_term_with_white_space() {
    let docs = vec![InputDocument::new("one", "  sample   content  "),
                    InputDocument::new("blank", " \t\n"),
                    InputDocument::new("empty", "")];

    let index = DocumentIndex::build_index(&docs).unwrap();

    assert_eq!(index.search(""), vec![]);
    assert_eq!(index.search(" "), vec![]);
    assert_eq!(index.search("sample content"), vec![]);
    assert_eq!(index.search(" sample"), vec![]);
    assert_eq!(index.search("sample"), vec![hit("one", 1)]);
    assert_eq!(index.search("content"), vec![hit("one", 1)]);
}

#[test]
fn unknown_term_gives_no_hits() {
    let docs = vec![InputDocument::new("one", "sample content"),
                    InputDocument::new("two", "more content")];

    let index = DocumentIndex::build_index(&docs).unwrap();

    assert_eq!(index.search("missing"), vec![]);
    assert_eq!(index.search("sampl"), vec![]);
    assert_eq!(index.search("samples"), vec![]);
    assert_eq!(index.search("content"), vec![hit("one", 1), hit("two", 1)]);
}

#[test]
fn index_of_empty_corpus_gives_no_hits() {
    let docs: Vec<InputDocument> = vec![];

    let index = DocumentIndex::build_index(&docs).unwrap();

    assert_eq!(index.search("sample"), vec![]);
    assert_eq!(index.search(""), vec![]);
    assert_eq!(index.extract_termfreq("sample", 0), None);
}

#[test]
fn rebuilt_index_answers_alike() {
    let docs = space_travel();

    let first = DocumentIndex::build_index(&docs).unwrap();
    let second = DocumentIndex::build_index(&docs).unwrap();

    for term in ["velocity", "the", "The", "is", "Drive", "yarn", "missing", ""] {
        assert_eq!(first.search(term), second.search(term));
    }
    assert_eq!(first.search("the"), vec![hit("two", 1), hit("three", 5)]);
    assert_eq!(first.search("yarn"), vec![hit("three", 2)]);
}

#[test]
fn index_keeps_documents_of_one_name_apart() {
    let docs = vec![InputDocument::new("same", "x y"),
                    InputDocument::new("same", "y y"),
                    InputDocument::new("other", "x")];

    let index = DocumentIndex::build_index(&docs).unwrap();

    assert_eq!(index.search("y"), vec![hit("same", 1), hit("same", 2)]);
    assert_eq!(index.search("x"), vec![hit("same", 1), hit("other", 1)]);
}

#[test]
fn index_holds_many_terms() {
    let mut docs = Vec::new();
    for d in 0..40u64 {
        let mut contents = String::new();
        for t in 0..50u64 {
            contents.push_str(&format!("w{} ", (d * 7 + t * 13) % 101));
        }
        docs.push(InputDocument::new(&format!("doc{}", d), &contents));
    }

    let index = DocumentIndex::build_index(&docs).unwrap();

    for w in 0..101u64 {
        let term = format!("w{}", w);
        let mut expected = Vec::new();
        for d in 0..40u64 {
            let count = (0..50u64).filter(|t| (d * 7 + t * 13) % 101 == w).count();
            if count > 0 {
                expected.push((format!("doc{}", d), count as u64));
            }
        }
        assert_eq!(index.search(&term), expected);
    }
}

#[test]
fn extract_termfreq_gives_the_frequency_in_one_document() {
    let docs = vec![InputDocument::new("a", "to be or not to be"),
                    InputDocument::new("b", "be"),
                    InputDocument::new("c", "maybe"),
                    InputDocument::new("d", "be be be be")];

    let index = DocumentIndex::build_index(&docs).unwrap();

    assert_eq!(index.extract_termfreq("be", 0), Some(2));
    assert_eq!(index.extract_termfreq("be", 1), Some(1));
    assert_eq!(index.extract_termfreq("be", 2), None);
    assert_eq!(index.extract_termfreq("be", 3), Some(4));
    assert_eq!(index.extract_termfreq("be", 4), None);
    assert_eq!(index.extract_termfreq("maybe", 2), Some(1));
    assert_eq!(index.extract_termfreq("maybe", 0), None);
    assert_eq!(index.extract_termfreq("never", 0), None);
}
