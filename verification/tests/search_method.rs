use doc_search::indexing::SearchMethod;

#[test]
fn iter_gives_the_three_methods_in_order() {
    assert_eq!(SearchMethod::iter(),
               vec![SearchMethod::StringMatch, SearchMethod::Regex, SearchMethod::Index]);
}

#[test]
fn label_names_each_method() {
    assert_eq!(SearchMethod::StringMatch.label(), "String Match");
    assert_eq!(SearchMethod::Regex.label(), "Regular Expression");
    assert_eq!(SearchMethod::Index.label(), "Indexed");
}
