//! Making a corpus of what a source of documents yields.

use vstd::prelude::*;
use crate::indexing::input_document::{corpus_view, DocumentView, InputDocument};

verus! {

/// What came of reading one item of a source of documents.
pub enum SourceItem<E> {
    /// The item is nothing that could be a document.
    Skipped,
    /// The item was read as a text.
    Text { name: String, contents: String },
    /// The item could not be read.
    Failed(E),
}

/// Makes a corpus of what a source of documents yields.
pub struct DocumentLoader {}

/// The failure of the first item that could not be read, if there is one.
pub open spec fn first_failure<E>(items: Seq<SourceItem<E>>) -> Option<E>
    decreases items.len(),
{
    if items.len() == 0 {
        None
    } else {
        match first_failure(items.drop_last()) {
            Some(failure) => Some(failure),
            None => match items.last() {
                SourceItem::Failed(failure) => Some(failure),
                _ => None,
            },
        }
    }
}

/// The documents that the items hold: one for each text, in the order of the
/// items.
pub open spec fn documents_of<E>(items: Seq<SourceItem<E>>) -> Seq<DocumentView>
    decreases items.len(),
{
    if items.len() == 0 {
        Seq::empty()
    } else {
        let earlier = documents_of(items.drop_last());
        match items.last() {
            SourceItem::Text { name, contents } => earlier.push(
                DocumentView { name: name@, contents: contents@ },
            ),
            _ => earlier,
        }
    }
}

impl DocumentLoader {
    /// Makes the corpus of the items that a source yielded. Each text becomes
    /// one document and what was skipped leaves no trace; where an item could
    /// not be read there is no corpus, and the first such failure is returned
    /// as it came.
    pub fn load_from_items<E>(items: Vec<SourceItem<E>>) -> (loaded: Result<Vec<InputDocument>, E>)
        ensures
            match first_failure(items@) {
                Some(failure) => loaded == Err::<Vec<InputDocument>, E>(failure),
                None => loaded matches Ok(docs) && corpus_view(docs@) == documents_of(items@),
            },
    {
        let mut docs: Vec<InputDocument> = Vec::new();
        let ghost all = items@;
        for item in it: items
            invariant
                it.seq() == items@,
                all == items@,
                first_failure(all.take(it.index())) is None,
                corpus_view(docs@) == documents_of(all.take(it.index())),
        {
            proof {
                assert(all.take(it.index() + 1).drop_last() == all.take(it.index()));
                assert(all.take(it.index() + 1).last() == item);
            }
            match item {
                SourceItem::Skipped => {},
                SourceItem::Text { name, contents } => {
                    let ghost before = corpus_view(docs@);
                    docs.push(InputDocument::new(name.as_str(), contents.as_str()));
                    assert(corpus_view(docs@) == before.push(
                        DocumentView { name: name@, contents: contents@ },
                    ));
                },
                SourceItem::Failed(failure) => {
                    proof {
                        lemma_first_failure_stays(all, it.index() + 1);
                    }
                    return Err(failure);
                },
            }
        }
        assert(all.take(all.len() as int) == all);
        Ok(docs)
    }
}

/// A failure among the first items of a source is the first failure of the
/// source.
pub proof fn lemma_first_failure_stays<E>(items: Seq<SourceItem<E>>, n: int)
    requires
        0 <= n <= items.len(),
        first_failure(items.take(n)) is Some,
    ensures
        first_failure(items) == first_failure(items.take(n)),
    decreases items.len() - n,
{
    if n < items.len() {
        assert(items.take(n + 1).drop_last() == items.take(n));
        lemma_first_failure_stays(items, n + 1);
    } else {
        assert(items.take(n) == items);
    }
}

} // verus!
