use doc_search::indexing::InputDocument;

#[test]
fn input_document_created_correctly() {
    let doc = InputDocument::new("one", "sample contents");

    assert!(doc.name() == "one");
    assert!(doc.contents() == "sample contents");
}
