use doc_search::indexing::DocumentLoader;
use doc_search::indexing::SourceItem;

fn text(name: &str, contents: &str) -> SourceItem<String> {
    SourceItem::Text { name: name.to_string(), contents: contents.to_string() }
}

#[test]
fn loader_makes_one_document_of_each_text() {
    let items = vec![text("a.txt", "alpha"), SourceItem::Skipped, text("b.txt", "beta gamma"),
                     SourceItem::Skipped];

    let docs = DocumentLoader::load_from_items(items).unwrap();

    assert_eq!(docs.len(), 2);
    assert_eq!(docs[0].name(), "a.txt");
    assert_eq!(docs[0].contents(), "alpha");
    assert_eq!(docs[1].name(), "b.txt");
    assert_eq!(docs[1].contents(), "beta gamma");
}

#[test]
fn loader_makes_an_empty_corpus_of_no_texts() {
    let none: Vec<SourceItem<String>> = vec![];
    assert_eq!(DocumentLoader::load_from_items(none).unwrap().len(), 0);

    let skipped: Vec<SourceItem<String>> = vec![SourceItem::Skipped, SourceItem::Skipped];
    assert_eq!(DocumentLoader::load_from_items(skipped).unwrap().len(), 0);
}

#[test]
fn loader_returns_the_first_failure_and_no_corpus() {
    let items = vec![text("a.txt", "alpha"), SourceItem::Failed("denied".to_string()),
                     text("b.txt", "beta"), SourceItem::Failed("gone".to_string())];

    let loaded = DocumentLoader::load_from_items(items);

    assert_eq!(loaded.err(), Some("denied".to_string()));
}

#[test]
fn loader_hands_on_a_failure_as_it_came() {
    let failure = std::io::Error::new(std::io::ErrorKind::InvalidData, "stream did not contain valid UTF-8");
    let items = vec![SourceItem::Skipped, SourceItem::Failed(failure)];

    let loaded = DocumentLoader::load_from_items(items).err().unwrap();

    assert_eq!(loaded.kind(), std::io::ErrorKind::InvalidData);
    assert_eq!(loaded.to_string(), "stream did not contain valid UTF-8");
}
