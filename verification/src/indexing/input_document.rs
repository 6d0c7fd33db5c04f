//! The documents of a corpus.

use vstd::prelude::*;

verus! {

/// A document as contracts see it: its name and its text.
pub struct DocumentView {
    pub name: Seq<char>,
    pub contents: Seq<char>,
}

/// A named text. Nothing changes it once it is made.
#[derive(Debug)]
pub struct InputDocument {
    name: String,
    contents: String,
}

impl View for InputDocument {
    type V = DocumentView;

    closed spec fn view(&self) -> DocumentView {
        DocumentView { name: self.name@, contents: self.contents@ }
    }
}

impl InputDocument {
    pub fn new(name: &str, contents: &str) -> (doc: InputDocument)
        ensures
            doc@.name == name@,
            doc@.contents == contents@,
    {
        InputDocument { name: name.to_owned(), contents: contents.to_owned() }
    }

    pub fn name(&self) -> (name: &String)
        ensures
            name@ == self@.name,
    {
        &self.name
    }

    pub fn contents(&self) -> (contents: &String)
        ensures
            contents@ == self@.contents,
    {
        &self.contents
    }
}

/// A corpus as contracts see it: its documents in the order in which they stand.
pub open spec fn corpus_view(docs: Seq<InputDocument>) -> Seq<DocumentView> {
    Seq::new(docs.len(), |i: int| docs[i]@)
}

} // verus!
