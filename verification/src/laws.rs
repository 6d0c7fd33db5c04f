//! What holds of the ways to search, taken together.

use vstd::prelude::*;
use crate::hits::{
    hit_names, hits_view, lemma_hits_by_names_agree, lemma_hits_by_names_within, Hit,
};
use crate::indexing::document_index::{
    index_of, indexed_hits, lemma_counted_term_is_among, lemma_index_answers, postings_of,
    term_frequency,
};
use crate::indexing::{
    is_outcome_of, regex_hits, string_match_hits, DocumentView, IndexView, QueryError,
    SearchMethod,
};
use crate::pattern::{compile_outcome, regex_diagnostic};
use crate::matching::{count_occurrences, lemma_occurrence_is_counted};
use crate::ranking::{
    hits_of_frequency, is_falling, lemma_ranked_is_falling, lemma_ranked_keeps_hits,
    lemma_ranked_keeps_order_of_ties, ranked,
};
use crate::tokenizer::{lemma_term_stands_in_text, tokens};

verus! {

/// A term of a text occurs in the text.
pub proof fn lemma_term_occurs_in_text(text: Seq<char>, term: Seq<char>)
    requires
        term_frequency(text, term) > 0,
    ensures
        count_occurrences(text, term) > 0,
{
    let k = lemma_counted_term_is_among(tokens(text), term);
    let at = lemma_term_stands_in_text(text, k);
    lemma_occurrence_is_counted(text, term, at);
}

/// Every document that the index of a corpus returns for a term is one that a
/// search for the literal term finds in the corpus.
pub proof fn lemma_indexed_hits_are_string_match_hits(corpus: Seq<DocumentView>, term: Seq<char>)
    ensures
        forall|k: int|
            0 <= k < index_of(corpus).hits(term).len() ==> hit_names(
                string_match_hits(corpus, term),
            ).contains(#[trigger] index_of(corpus).hits(term)[k].name),
{
    let by_terms = |contents: Seq<char>| term_frequency(contents, term);
    let by_letters = |contents: Seq<char>| count_occurrences(contents, term);
    lemma_index_answers(corpus, term);
    assert forall|i: int|
        0 <= i < corpus.len() && by_terms(#[trigger] corpus[i].contents) > 0 implies by_letters(
        corpus[i].contents,
    ) > 0 by {
        lemma_term_occurs_in_text(corpus[i].contents, term);
    }
    lemma_hits_by_names_within(corpus, by_terms, by_letters);
}

/// Where a term, in each document in which it occurs at all, is also one of
/// the document's terms, the index and the search for the literal term find
/// the same documents: in the same order before ranking, and the same set of
/// them after it.
pub proof fn lemma_index_agrees_with_string_match(corpus: Seq<DocumentView>, term: Seq<char>)
    requires
        forall|i: int|
            0 <= i < corpus.len() && count_occurrences(#[trigger] corpus[i].contents, term) > 0
                ==> term_frequency(corpus[i].contents, term) > 0,
    ensures
        hit_names(index_of(corpus).hits(term)) == hit_names(string_match_hits(corpus, term)),
        hit_names(ranked(index_of(corpus).hits(term))).to_set() == hit_names(
            ranked(string_match_hits(corpus, term)),
        ).to_set(),
{
    let by_terms = |contents: Seq<char>| term_frequency(contents, term);
    let by_letters = |contents: Seq<char>| count_occurrences(contents, term);
    lemma_index_answers(corpus, term);
    assert forall|i: int| 0 <= i < corpus.len() implies (by_terms(#[trigger] corpus[i].contents)
        > 0 <==> by_letters(corpus[i].contents) > 0) by {
        if by_terms(corpus[i].contents) > 0 {
            lemma_term_occurs_in_text(corpus[i].contents, term);
        }
    }
    lemma_hits_by_names_agree(corpus, by_terms, by_letters);
    lemma_ranked_keeps_hits(index_of(corpus).hits(term));
    lemma_ranked_keeps_hits(string_match_hits(corpus, term));
}

/// Two indexes built from one corpus give one answer: whatever two indexed
/// searches for a term return on them holds the same hits in the same order.
pub proof fn lemma_rebuilt_index_answers_alike(
    corpus: Seq<DocumentView>,
    term: Seq<char>,
    first: Result<Vec<(String, u64)>, QueryError>,
    second: Result<Vec<(String, u64)>, QueryError>,
)
    requires
        is_outcome_of(SearchMethod::Index, term, index_of(corpus), corpus, first),
        is_outcome_of(SearchMethod::Index, term, index_of(corpus), corpus, second),
    ensures
        first is Ok,
        second is Ok,
        hits_view(first->Ok_0@) == hits_view(second->Ok_0@),
        hits_view(first->Ok_0@) == ranked(indexed_hits(corpus, term)),
{
    lemma_index_answers(corpus, term);
}

/// In ranked hits no hit stands before a more frequent one, hits of one
/// frequency stand as they stood before the ranking, and the hits are the
/// same.
pub proof fn lemma_ranking(hits: Seq<Hit>)
    ensures
        is_falling(ranked(hits)),
        forall|frequency: nat| #[trigger]
            hits_of_frequency(ranked(hits), frequency) == hits_of_frequency(hits, frequency),
        ranked(hits).to_multiset() == hits.to_multiset(),
{
    lemma_ranked_is_falling(hits);
    lemma_ranked_keeps_hits(hits);
    assert forall|frequency: nat| #[trigger]
        hits_of_frequency(ranked(hits), frequency) == hits_of_frequency(hits, frequency) by {
        lemma_ranked_keeps_order_of_ties(hits, frequency);
    }
}

/// On the empty corpus every search that answers finds nothing. A literal
/// and an indexed search always answer; a search with a regular expression
/// answers where the query is accepted as a pattern, and only there.
pub proof fn lemma_empty_corpus_has_no_hits(
    method: SearchMethod,
    term: Seq<char>,
    outcome: Result<Vec<(String, u64)>, QueryError>,
)
    requires
        is_outcome_of(
            method,
            term,
            index_of(Seq::<DocumentView>::empty()),
            Seq::<DocumentView>::empty(),
            outcome,
        ),
    ensures
        method != SearchMethod::Regex ==> outcome is Ok,
        method == SearchMethod::Regex ==> (outcome is Ok <==> compile_outcome(term) is Ok),
        outcome matches Ok(hits) ==> hits@.len() == 0,
{
    let nothing = Seq::<DocumentView>::empty();
    lemma_index_answers(nothing, term);
    assert(ranked(Seq::<Hit>::empty()) == Seq::<Hit>::empty());
    if outcome is Ok {
        assert(hits_view(outcome->Ok_0@).len() == 0);
    }
}

/// A term that is a term of no document of the corpus is not listed in the
/// index of the corpus, and the index answers a query for it with no hit.
pub proof fn lemma_unknown_term_has_no_hits(corpus: Seq<DocumentView>, term: Seq<char>)
    requires
        forall|i: int|
            0 <= i < corpus.len() ==> term_frequency(#[trigger] corpus[i].contents, term) == 0,
    ensures
        !index_of(corpus).postings.dom().contains(term),
        index_of(corpus).hits(term) == Seq::<Hit>::empty(),
    decreases corpus.len(),
{
    if corpus.len() > 0 {
        let shorter = corpus.drop_last();
        assert forall|i: int| 0 <= i < shorter.len() implies term_frequency(
            #[trigger] shorter[i].contents,
            term,
        ) == 0 by {
            assert(shorter[i] == corpus[i]);
        }
        lemma_unknown_term_has_no_hits(shorter, term);
        assert(corpus.last() == corpus[corpus.len() - 1]);
        assert(postings_of(corpus, term) == postings_of(shorter, term));
    }
}

/// A literal search and a search with a regular expression do not read the
/// index: on one query and one corpus they answer alike whatever index they
/// are given, with the same hits in the same order or with the same reason
/// for a refusal.
pub proof fn lemma_outcome_without_index(
    method: SearchMethod,
    term: Seq<char>,
    corpus: Seq<DocumentView>,
    first_index: IndexView,
    second_index: IndexView,
    first: Result<Vec<(String, u64)>, QueryError>,
    second: Result<Vec<(String, u64)>, QueryError>,
)
    requires
        method != SearchMethod::Index,
        is_outcome_of(method, term, first_index, corpus, first),
        is_outcome_of(method, term, second_index, corpus, second),
    ensures
        first is Ok <==> second is Ok,
        first is Ok ==> hits_view(first->Ok_0@) == hits_view(second->Ok_0@),
        first is Err ==> first->Err_0.diagnostic_text() == second->Err_0.diagnostic_text(),
{
}

/// A search with a regular expression is refused exactly where the query is
/// refused as a pattern, whatever the corpus, and the refusal gives the
/// reason for this query; where the query is accepted the answer holds the
/// ranked hits of the expression.
pub proof fn lemma_regex_outcome(
    term: Seq<char>,
    index: IndexView,
    corpus: Seq<DocumentView>,
    outcome: Result<Vec<(String, u64)>, QueryError>,
)
    requires
        is_outcome_of(SearchMethod::Regex, term, index, corpus, outcome),
    ensures
        outcome is Err <==> compile_outcome(term) is Err,
        outcome is Err ==> outcome->Err_0.diagnostic_text() == regex_diagnostic(
            compile_outcome(term)->Err_0,
        ),
        outcome is Ok ==> hits_view(outcome->Ok_0@) == ranked(
            regex_hits(corpus, compile_outcome(term)->Ok_0),
        ),
{
}

} // verus!
