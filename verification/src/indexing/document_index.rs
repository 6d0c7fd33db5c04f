//! The index over the terms of a corpus.

use vstd::prelude::*;
use crate::dictionary::{posting_view, postings_view, record, Posting, TermDictionary};
use crate::hits::{hits_by, hits_view, Hit};
use crate::indexing::input_document::{corpus_view, DocumentView, InputDocument};
use crate::text::to_chars;
use crate::tokenizer::{terms_view, tokenize, tokens};

verus! {

/// How often `term` stands among `terms`.
pub open spec fn count_term(terms: Seq<Seq<char>>, term: Seq<char>) -> nat
    decreases terms.len(),
{
    if terms.len() == 0 {
        0
    } else {
        count_term(terms.drop_last(), term) + if terms.last() == term {
            1nat
        } else {
            0nat
        }
    }
}

/// How often `term` is a term of the text `contents`.
pub open spec fn term_frequency(contents: Seq<char>, term: Seq<char>) -> nat {
    count_term(tokens(contents), term)
}

/// The postings of `term` in `corpus`: one for each document that holds the
/// term, with its frequency there, in the order of the corpus.
pub open spec fn postings_of(corpus: Seq<DocumentView>, term: Seq<char>) -> Seq<Posting>
    decreases corpus.len(),
{
    if corpus.len() == 0 {
        Seq::empty()
    } else {
        let earlier = postings_of(corpus.drop_last(), term);
        let frequency = term_frequency(corpus.last().contents, term);
        if frequency > 0 {
            earlier.push(Posting { document: (corpus.len() - 1) as nat, frequency })
        } else {
            earlier
        }
    }
}

/// An index as contracts see it: the names of the documents it was built from,
/// and for each term that it lists the term's postings.
pub struct IndexView {
    pub names: Seq<Seq<char>>,
    pub postings: Map<Seq<char>, Seq<Posting>>,
}

impl IndexView {
    /// Each listed term has postings; they name documents of the index, each
    /// document once and in rising order, and no frequency is zero.
    pub open spec fn wf(self) -> bool {
        forall|term: Seq<char>| #[trigger]
            self.postings.dom().contains(term) ==> {
                let postings = self.postings[term];
                &&& postings.len() > 0
                &&& forall|k: int|
                    0 <= k < postings.len() ==> (#[trigger] postings[k]).document
                        < self.names.len() && postings[k].frequency >= 1
                &&& forall|j: int, k: int|
                    0 <= j < k < postings.len() ==> (#[trigger] postings[j]).document < (
                    #[trigger] postings[k]).document
            }
    }

    /// The frequency of `term` in the document at the given place of the
    /// corpus, where the index has a posting for the two.
    pub open spec fn frequency(self, term: Seq<char>, document: nat) -> Option<nat> {
        if self.postings.dom().contains(term) {
            frequency_in(self.postings[term], document)
        } else {
            None
        }
    }

    /// What the index answers to a query for `term`: for each posting of the
    /// term the document's name and the frequency; nothing for a term that it
    /// does not list.
    pub open spec fn hits(self, term: Seq<char>) -> Seq<Hit> {
        if self.postings.dom().contains(term) {
            named_hits(self.names, self.postings[term])
        } else {
            Seq::empty()
        }
    }
}

/// The frequency that postings give for a document, if one of them is the
/// document's.
pub open spec fn frequency_in(postings: Seq<Posting>, document: nat) -> Option<nat>
    decreases postings.len(),
{
    if postings.len() == 0 {
        None
    } else if postings.last().document == document {
        Some(postings.last().frequency)
    } else {
        frequency_in(postings.drop_last(), document)
    }
}

/// Postings name documents in rising order, and no frequency is zero.
pub open spec fn is_rising(postings: Seq<Posting>) -> bool {
    &&& forall|k: int| 0 <= k < postings.len() ==> (#[trigger] postings[k]).frequency >= 1
    &&& forall|j: int, k: int|
        0 <= j < k < postings.len() ==> (#[trigger] postings[j]).document < (
        #[trigger] postings[k]).document
}

/// The hits that postings stand for, given the names of the documents.
pub open spec fn named_hits(names: Seq<Seq<char>>, postings: Seq<Posting>) -> Seq<Hit> {
    Seq::new(
        postings.len(),
        |k: int| Hit { name: names[postings[k].document as int], frequency: postings[k].frequency },
    )
}

/// The names of the documents of a corpus.
pub open spec fn names_of(corpus: Seq<DocumentView>) -> Seq<Seq<char>> {
    Seq::new(corpus.len(), |i: int| corpus[i].name)
}

/// The index of a corpus: it lists the terms of its documents, each with its
/// postings.
pub open spec fn index_of(corpus: Seq<DocumentView>) -> IndexView {
    IndexView {
        names: names_of(corpus),
        postings: Map::new(
            |term: Seq<char>| postings_of(corpus, term).len() > 0,
            |term: Seq<char>| postings_of(corpus, term),
        ),
    }
}

/// What a search for `term` finds in `corpus` by its terms: each document of
/// which `term` is a term, with the number of times it is.
pub open spec fn indexed_hits(corpus: Seq<DocumentView>, term: Seq<char>) -> Seq<Hit> {
    hits_by(corpus, |contents: Seq<char>| term_frequency(contents, term))
}

/// A term stands among terms no more often than there are terms.
pub proof fn lemma_count_term_bound(terms: Seq<Seq<char>>, term: Seq<char>)
    ensures
        count_term(terms, term) <= terms.len(),
    decreases terms.len(),
{
    if terms.len() > 0 {
        lemma_count_term_bound(terms.drop_last(), term);
    }
}

/// A term that is counted among terms is one of them. The result is a place
/// at which it stands.
pub proof fn lemma_counted_term_is_among(terms: Seq<Seq<char>>, term: Seq<char>) -> (k: int)
    requires
        count_term(terms, term) > 0,
    ensures
        0 <= k < terms.len(),
        terms[k] == term,
    decreases terms.len(),
{
    if terms.last() == term {
        terms.len() - 1
    } else {
        lemma_counted_term_is_among(terms.drop_last(), term)
    }
}

/// The postings of a term name documents of the corpus in rising order, each
/// with the frequency of the term in that document, which is not zero.
pub proof fn lemma_postings_of(corpus: Seq<DocumentView>, term: Seq<char>)
    ensures
        forall|k: int|
            0 <= k < postings_of(corpus, term).len() ==> {
                let posting = #[trigger] postings_of(corpus, term)[k];
                &&& posting.document < corpus.len()
                &&& posting.frequency >= 1
                &&& posting.frequency == term_frequency(
                    corpus[posting.document as int].contents,
                    term,
                )
            },
        forall|j: int, k: int|
            0 <= j < k < postings_of(corpus, term).len() ==> (#[trigger] postings_of(
                corpus,
                term,
            )[j]).document < (#[trigger] postings_of(corpus, term)[k]).document,
    decreases corpus.len(),
{
    if corpus.len() > 0 {
        lemma_postings_of(corpus.drop_last(), term);
        let earlier = postings_of(corpus.drop_last(), term);
        let all = postings_of(corpus, term);
        assert forall|k: int| 0 <= k < all.len() implies {
            let posting = #[trigger] all[k];
            &&& posting.document < corpus.len()
            &&& posting.frequency >= 1
            &&& posting.frequency == term_frequency(corpus[posting.document as int].contents, term)
        } by {
            if k < earlier.len() {
                assert(all[k] == earlier[k]);
                assert(corpus.drop_last()[earlier[k].document as int]
                    == corpus[earlier[k].document as int]);
            }
        }
        assert forall|j: int, k: int| 0 <= j < k < all.len() implies (#[trigger] all[j]).document
            < (#[trigger] all[k]).document by {
            assert(all[j] == earlier[j]);
            if k < earlier.len() {
                assert(all[k] == earlier[k]);
            }
        }
    }
}

/// Among rising postings the one of a document gives the document's frequency,
/// and a document of which there is none has no frequency.
pub proof fn lemma_frequency_in(postings: Seq<Posting>, document: nat)
    requires
        is_rising(postings),
    ensures
        forall|k: int|
            0 <= k < postings.len() && (#[trigger] postings[k]).document == document
                ==> frequency_in(postings, document) == Some(postings[k].frequency),
        (forall|k: int| 0 <= k < postings.len() ==> (#[trigger] postings[k]).document != document)
            ==> frequency_in(postings, document) is None,
    decreases postings.len(),
{
    if postings.len() > 0 {
        let shorter = postings.drop_last();
        assert forall|k: int| 0 <= k < shorter.len() implies #[trigger] shorter[k]
            == postings[k] by {}
        assert(is_rising(shorter)) by {
            assert forall|j: int, k: int| 0 <= j < k < shorter.len() implies (
            #[trigger] shorter[j]).document < (#[trigger] shorter[k]).document by {
                assert(postings[j].document < postings[k].document);
            }
            assert forall|k: int| 0 <= k < shorter.len() implies (
            #[trigger] shorter[k]).frequency >= 1 by {
                assert(postings[k].frequency >= 1);
            }
        }
        lemma_frequency_in(shorter, document);
        assert forall|k: int|
            0 <= k < postings.len() && (#[trigger] postings[k]).document
                == document implies frequency_in(postings, document) == Some(
            postings[k].frequency,
        ) by {
            if postings.last().document == document {
                if k < postings.len() - 1 {
                    assert(postings[k].document < postings[postings.len() - 1].document);
                }
            } else {
                assert(shorter[k] == postings[k]);
            }
        }
        if forall|k: int| 0 <= k < postings.len() ==> (#[trigger] postings[k]).document != document {
            assert(postings[postings.len() - 1].document != document);
            assert forall|k: int| 0 <= k < shorter.len() implies (
            #[trigger] shorter[k]).document != document by {
                assert(postings[k].document != document);
            }
        }
    }
}

/// The index of a corpus gives for a term and a document the frequency of the
/// term in the document, where that is not zero.
pub proof fn lemma_index_frequency(corpus: Seq<DocumentView>, term: Seq<char>, document: nat)
    ensures
        index_of(corpus).frequency(term, document) == if document < corpus.len() && term_frequency(
            corpus[document as int].contents,
            term,
        ) > 0 {
            Some(term_frequency(corpus[document as int].contents, term))
        } else {
            None
        },
    decreases corpus.len(),
{
    if corpus.len() > 0 {
        let shorter = corpus.drop_last();
        lemma_index_frequency(shorter, term, document);
        lemma_postings_of(shorter, term);
        let earlier = postings_of(shorter, term);
        let frequency = term_frequency(corpus.last().contents, term);
        if document < shorter.len() {
            assert(shorter[document as int] == corpus[document as int]);
        }
        if frequency > 0 {
            let posting = Posting { document: (corpus.len() - 1) as nat, frequency };
            assert(earlier.push(posting).drop_last() == earlier);
        }
        if earlier.len() == 0 {
            assert(frequency_in(earlier, document) is None);
        }
    }
}

/// The index of a corpus is well formed.
pub proof fn lemma_index_of_wf(corpus: Seq<DocumentView>)
    ensures
        index_of(corpus).wf(),
{
    let index = index_of(corpus);
    assert forall|term: Seq<char>| #[trigger] index.postings.dom().contains(term) implies {
        let postings = index.postings[term];
        &&& postings.len() > 0
        &&& forall|k: int|
            0 <= k < postings.len() ==> (#[trigger] postings[k]).document < index.names.len()
                && postings[k].frequency >= 1
        &&& forall|j: int, k: int|
            0 <= j < k < postings.len() ==> (#[trigger] postings[j]).document < (
            #[trigger] postings[k]).document
    } by {
        lemma_postings_of(corpus, term);
    }
}

/// The index of a corpus answers a query with the documents of which the
/// query is a term, in the order of the corpus, each with its frequency.
pub proof fn lemma_index_answers(corpus: Seq<DocumentView>, term: Seq<char>)
    ensures
        index_of(corpus).hits(term) == indexed_hits(corpus, term),
        named_hits(names_of(corpus), postings_of(corpus, term)) == indexed_hits(corpus, term),
    decreases corpus.len(),
{
    let names = names_of(corpus);
    let all = postings_of(corpus, term);
    if corpus.len() == 0 {
        assert(named_hits(names, all) == Seq::<Hit>::empty());
    } else {
        let shorter = corpus.drop_last();
        let earlier = postings_of(shorter, term);
        lemma_index_answers(shorter, term);
        lemma_postings_of(shorter, term);
        assert(named_hits(names, earlier) == named_hits(names_of(shorter), earlier)) by {
            assert forall|k: int| 0 <= k < earlier.len() implies names[earlier[k].document as int]
                == names_of(shorter)[earlier[k].document as int] by {
                assert(shorter[earlier[k].document as int] == corpus[earlier[k].document as int]);
            }
        }
        let frequency = term_frequency(corpus.last().contents, term);
        if frequency > 0 {
            let posting = Posting { document: (corpus.len() - 1) as nat, frequency };
            assert(named_hits(names, earlier.push(posting)) == named_hits(names, earlier).push(
                Hit { name: corpus.last().name, frequency },
            ));
        }
    }
    assert(index_of(corpus).hits(term) == named_hits(names, all));
}

/// The postings of `term` while an index is built: those in the documents that
/// are done, and one more for the next document where `term` stands among the
/// terms of it that were seen.
pub open spec fn partial_postings(
    done: Seq<DocumentView>,
    seen: Seq<Seq<char>>,
    term: Seq<char>,
) -> Seq<Posting> {
    let frequency = count_term(seen, term);
    if frequency > 0 {
        postings_of(done, term).push(Posting { document: done.len(), frequency })
    } else {
        postings_of(done, term)
    }
}

/// Recording an occurrence of a term in the next document is seeing the term
/// once more among that document's terms.
proof fn lemma_record_next(done: Seq<DocumentView>, seen: Seq<Seq<char>>, term: Seq<char>)
    ensures
        record(partial_postings(done, seen, term), done.len()) == partial_postings(
            done,
            seen.push(term),
            term,
        ),
        forall|other: Seq<char>|
            other != term ==> #[trigger] partial_postings(done, seen.push(term), other)
                == partial_postings(done, seen, other),
{
    lemma_postings_of(done, term);
    assert(seen.push(term).drop_last() == seen);
    let earlier = postings_of(done, term);
    let frequency = count_term(seen, term);
    if frequency > 0 {
        assert(earlier.push(Posting { document: done.len(), frequency }).drop_last() == earlier);
    } else if earlier.len() > 0 {
        assert(earlier.last() == earlier[earlier.len() - 1]);
    }
}

/// An index over the terms of a corpus: built once, then only read.
pub struct DocumentIndex {
    names: Vec<String>,
    dictionary: TermDictionary,
}

/// An index could not be built.
#[derive(Debug)]
pub enum IndexBuildError {
    /// The store that was to hold the index failed.
    Storage,
}

/// The names that a vector of strings stands for.
pub open spec fn names_view(names: Seq<String>) -> Seq<Seq<char>> {
    Seq::new(names.len(), |i: int| names[i]@)
}

/// Every posting names a document below `documents`.
pub open spec fn is_within(postings: Seq<Posting>, documents: nat) -> bool {
    forall|k: int| 0 <= k < postings.len() ==> (#[trigger] postings[k]).document < documents
}

impl View for DocumentIndex {
    type V = IndexView;

    closed spec fn view(&self) -> IndexView {
        IndexView {
            names: names_view(self.names@),
            postings: Map::new(
                |term: Seq<char>| self.dictionary.postings(term).len() > 0,
                |term: Seq<char>| self.dictionary.postings(term),
            ),
        }
    }
}

impl DocumentIndex {
    #[verifier::type_invariant]
    spec fn inv(&self) -> bool {
        &&& self.dictionary.wf()
        &&& forall|term: Seq<char>|
            is_rising(#[trigger] self.dictionary.postings(term)) && is_within(
                self.dictionary.postings(term),
                self.names@.len(),
            )
    }

    /// Builds the index of a corpus.
    pub fn build_index(input_docs: &Vec<InputDocument>) -> (built: Result<
        DocumentIndex,
        IndexBuildError,
    >)
        ensures
            built matches Ok(index) && index@ == index_of(corpus_view(input_docs@)),
            built matches Ok(index) && index@.wf(),
    {
        let ghost corpus = corpus_view(input_docs@);
        proof {
            lemma_index_of_wf(corpus);
        }
        let mut names: Vec<String> = Vec::new();
        let mut dictionary = TermDictionary::new();
        let mut d: usize = 0;
        assert(names_view(names@) == names_of(corpus.take(0)));
        while d < input_docs.len()
            invariant
                d <= input_docs.len(),
                corpus == corpus_view(input_docs@),
                names_view(names@) == names_of(corpus.take(d as int)),
                dictionary.wf(),
                forall|term: Seq<char>| #[trigger]
                    dictionary.postings(term) == postings_of(corpus.take(d as int), term),
            decreases input_docs.len() - d,
        {
            let doc = &input_docs[d];
            let terms = tokenize(doc.contents().as_str());
            let ghost done = corpus.take(d as int);
            let ghost all_terms = terms_view(terms@);
            let count = terms.len();
            assert(all_terms == tokens(doc@.contents));
            for term in it: terms
                invariant
                    it.seq() == terms@,
                    terms@.len() == count,
                    all_terms == terms_view(terms@),
                    done.len() == d,
                    dictionary.wf(),
                    forall|other: Seq<char>| #[trigger]
                        dictionary.postings(other) == partial_postings(
                            done,
                            all_terms.take(it.index()),
                            other,
                        ),
            {
                let ghost seen = all_terms.take(it.index());
                proof {
                    lemma_record_next(done, seen, term@);
                    lemma_count_term_bound(seen, term@);
                    lemma_postings_of(done, term@);
                    assert(all_terms.take(it.index() + 1) == seen.push(term@));
                    let stored = partial_postings(done, seen, term@);
                    assert(dictionary.postings(term@) == stored);
                    assert(seen.len() == it.index());
                    assert(it.index() < count);
                    if stored.len() > 0 && stored.last().document == d {
                        let earlier = postings_of(done, term@);
                        if count_term(seen, term@) == 0 {
                            assert(earlier.last() == earlier[earlier.len() - 1]);
                        }
                        assert(stored.last().frequency == count_term(seen, term@));
                    }
                }
                dictionary.add_occurrence(term, d);
            }
            proof {
                assert(all_terms.take(all_terms.len() as int) == all_terms);
                assert(corpus.take(d + 1).drop_last() == done);
                assert(corpus.take(d + 1).last() == doc@);
            }
            let ghost names_before = names_view(names@);
            names.push(doc.name().clone());
            assert(names_view(names@) == names_before.push(doc@.name));
            assert(names_of(corpus.take(d + 1)) == names_of(done).push(doc@.name));
            d += 1;
        }
        proof {
            assert(corpus.take(d as int) == corpus);
            assert(names@.len() == corpus.len());
            assert forall|term: Seq<char>|
                is_rising(#[trigger] dictionary.postings(term)) && is_within(
                    dictionary.postings(term),
                    names@.len(),
                ) by {
                lemma_postings_of(corpus, term);
            }
        }
        let index = DocumentIndex { names, dictionary };
        proof {
            assert(index@.postings =~= index_of(corpus).postings);
        }
        Ok(index)
    }

    /// The frequency of `term` in the document at the given place of the
    /// corpus: none where the term is no term of that document.
    pub fn extract_termfreq(&self, term: &str, document: usize) -> (frequency: Option<u64>)
        ensures
            match frequency {
                Some(found) => self@.frequency(term@, document as nat) == Some(found as nat),
                None => self@.frequency(term@, document as nat) is None,
            },
            self@.wf(),
    {
        proof {
            use_type_invariant(self);
            self.lemma_wf();
        }
        let key = to_chars(term);
        let postings = match self.dictionary.lookup(&key) {
            Some(postings) => postings,
            None => {
                return None;
            },
        };
        let ghost rising = postings_view(postings@);
        let mut low: usize = 0;
        let mut high: usize = postings.len();
        while low < high
            invariant
                low <= high <= postings.len(),
                rising == postings_view(postings@),
                is_rising(rising),
                self@.wf(),
                self@.frequency(term@, document as nat) == frequency_in(rising, document as nat),
                forall|k: int| 0 <= k < low ==> (#[trigger] rising[k]).document < document,
                forall|k: int|
                    high <= k < postings.len() ==> (#[trigger] rising[k]).document > document,
            decreases high - low,
        {
            let mid = low + (high - low) / 2;
            let at = postings[mid].document;
            assert(rising[mid as int].document == at);
            if at == document {
                proof {
                    lemma_frequency_in(rising, document as nat);
                }
                return Some(postings[mid].frequency);
            } else if at < document {
                assert forall|k: int| 0 <= k < mid + 1 implies (#[trigger] rising[k]).document
                    < document by {
                    if k < mid {
                        assert(rising[k].document < rising[mid as int].document);
                    }
                }
                low = mid + 1;
            } else {
                assert forall|k: int| mid <= k < postings.len() implies (
                #[trigger] rising[k]).document > document by {
                    if mid < k {
                        assert(rising[mid as int].document < rising[k].document);
                    }
                }
                high = mid;
            }
        }
        proof {
            lemma_frequency_in(rising, document as nat);
        }
        None
    }

    /// Answers a query: the documents of which `term` is a term, in the order
    /// of the corpus, each with the frequency of the term in it.
    pub fn search(&self, term: &str) -> (hits: Vec<(String, u64)>)
        ensures
            hits_view(hits@) == self@.hits(term@),
            !self@.postings.dom().contains(term@) ==> hits@.len() == 0,
            self@.wf(),
    {
        proof {
            use_type_invariant(self);
            self.lemma_wf();
        }
        let key = to_chars(term);
        let mut hits: Vec<(String, u64)> = Vec::new();
        let postings = match self.dictionary.lookup(&key) {
            Some(postings) => postings,
            None => {
                assert(hits_view(hits@) == Seq::<Hit>::empty());
                return hits;
            },
        };
        let ghost answer = named_hits(names_view(self.names@), postings_view(postings@));
        assert forall|j: int| 0 <= j < postings.len() implies (#[trigger] postings[j]).document
            < self.names.len() by {
            assert(is_within(self.dictionary.postings(term@), self.names@.len()));
            assert(postings_view(postings@)[j] == posting_view(postings[j]));
        }
        let mut k: usize = 0;
        while k < postings.len()
            invariant
                k <= postings.len(),
                forall|j: int|
                    0 <= j < postings.len() ==> (#[trigger] postings[j]).document
                        < self.names.len(),
                answer == named_hits(names_view(self.names@), postings_view(postings@)),
                hits_view(hits@) == answer.take(k as int),
            decreases postings.len() - k,
        {
            let posting = &postings[k];
            let ghost before = hits_view(hits@);
            hits.push((self.names[posting.document].clone(), posting.frequency));
            assert(hits_view(hits@) == before.push(answer[k as int]));
            k += 1;
        }
        assert(answer.take(k as int) == answer);
        hits
    }

    /// An index that holds rising postings of its documents is well formed.
    proof fn lemma_wf(&self)
        requires
            self.inv(),
        ensures
            self@.wf(),
    {
        let index = self@;
        assert forall|term: Seq<char>| #[trigger] index.postings.dom().contains(term) implies {
            let postings = index.postings[term];
            &&& postings.len() > 0
            &&& forall|k: int|
                0 <= k < postings.len() ==> (#[trigger] postings[k]).document < index.names.len()
                    && postings[k].frequency >= 1
            &&& forall|j: int, k: int|
                0 <= j < k < postings.len() ==> (#[trigger] postings[j]).document < (
                #[trigger] postings[k]).document
        } by {
            assert(is_rising(self.dictionary.postings(term)));
            assert(is_within(self.dictionary.postings(term), self.names@.len()));
        }
    }
}

} // verus!
