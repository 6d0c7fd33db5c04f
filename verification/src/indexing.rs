//! The ways to search a corpus, and the function that chooses among them.

pub mod document_index;
pub mod document_loader;
pub mod input_document;

pub use self::document_index::DocumentIndex;
pub use self::document_index::IndexBuildError;
pub use self::document_index::IndexView;
pub use self::document_loader::DocumentLoader;
pub use self::document_loader::SourceItem;
pub use self::input_document::DocumentView;
pub use self::input_document::InputDocument;

use vstd::prelude::*;
use vstd::string::StringExecFns;
use crate::hits::{hits_by, hits_view, Hit};
use crate::indexing::input_document::corpus_view;
use crate::matching::{count_matches, count_occurrences};
use crate::pattern::{
    compile_outcome, compile_regex, count_regex_matches, describe_regex_error, regex_diagnostic,
    regex_match_count,
};
use crate::ranking::{is_falling, rank, ranked};
use crate::text::to_chars;

verus! {

/// The ways to search a corpus.
#[derive(Copy, Clone, PartialEq, Eq, Hash, Debug, Structural)]
pub enum SearchMethod {
    StringMatch,
    Regex,
    Index,
}

impl SearchMethod {
    /// All methods, in the order in which they are offered.
    pub fn iter() -> (methods: Vec<SearchMethod>)
        ensures
            methods@ == seq![SearchMethod::StringMatch, SearchMethod::Regex, SearchMethod::Index],
    {
        let mut methods: Vec<SearchMethod> = Vec::new();
        methods.push(SearchMethod::StringMatch);
        methods.push(SearchMethod::Regex);
        methods.push(SearchMethod::Index);
        methods
    }

    /// The name under which a method is shown.
    pub open spec fn label_text(self) -> Seq<char> {
        match self {
            SearchMethod::StringMatch => "String Match"@,
            SearchMethod::Regex => "Regular Expression"@,
            SearchMethod::Index => "Indexed"@,
        }
    }

    /// The name under which a method is shown.
    pub fn label(&self) -> (text: String)
        ensures
            text@ == self.label_text(),
    {
        match self {
            SearchMethod::StringMatch => "String Match".to_owned(),
            SearchMethod::Regex => "Regular Expression".to_owned(),
            SearchMethod::Index => "Indexed".to_owned(),
        }
    }
}

/// A query that cannot be answered.
#[derive(Debug)]
pub enum QueryError {
    /// The query is no regular expression; `diagnostic` says why.
    InvalidQuery { diagnostic: String },
}

impl QueryError {
    /// Why the query was refused.
    pub open spec fn diagnostic_text(self) -> Seq<char> {
        match self {
            QueryError::InvalidQuery { diagnostic } => diagnostic@,
        }
    }

    /// The error as a sentence for the one who asked.
    pub fn message(&self) -> (text: String)
        ensures
            text@ == "Expression invalid: "@ + self.diagnostic_text(),
    {
        match self {
            QueryError::InvalidQuery { diagnostic } => {
                let mut text = "Expression invalid: ".to_owned();
                text.append(diagnostic.as_str());
                text
            },
        }
    }
}

/// What a search for the literal `term` finds in `corpus`: each document in which
/// the term occurs, with the number of its non-overlapping occurrences.
pub open spec fn string_match_hits(corpus: Seq<DocumentView>, term: Seq<char>) -> Seq<Hit> {
    hits_by(corpus, |contents: Seq<char>| count_occurrences(contents, term))
}

/// What a search with a regular expression finds in `corpus`: each document in
/// which the expression matches, with the number of its matches.
pub open spec fn regex_hits(corpus: Seq<DocumentView>, expression: regex::Regex) -> Seq<Hit> {
    hits_by(corpus, |contents: Seq<char>| regex_match_count(expression, contents))
}

pub fn search_by_index(term: &str, index: &DocumentIndex) -> (hits: Vec<(String, u64)>)
    ensures
        hits_view(hits@) == index@.hits(term@),
{
    index.search(term)
}

pub fn search_by_string_match(term: &str, docs: &Vec<InputDocument>) -> (hits: Vec<(String, u64)>)
    ensures
        hits_view(hits@) == string_match_hits(corpus_view(docs@), term@),
{
    let pattern = to_chars(term);
    let ghost corpus = corpus_view(docs@);
    let ghost frequency = |contents: Seq<char>| count_occurrences(contents, term@);
    let mut hits: Vec<(String, u64)> = Vec::new();
    let mut i: usize = 0;
    while i < docs.len()
        invariant
            i <= docs.len(),
            pattern@ == term@,
            corpus == corpus_view(docs@),
            frequency == |contents: Seq<char>| count_occurrences(contents, term@),
            hits_view(hits@) == hits_by(corpus.take(i as int), frequency),
        decreases docs.len() - i,
    {
        let doc = &docs[i];
        let text = to_chars(doc.contents().as_str());
        let count = count_matches(&text, &pattern);
        proof {
            assert(corpus.take(i + 1).drop_last() == corpus.take(i as int));
            assert(corpus.take(i + 1).last() == doc@);
        }
        if count > 0 {
            let ghost before = hits_view(hits@);
            hits.push((doc.name().clone(), count as u64));
            assert(hits_view(hits@) == before.push(
                Hit { name: doc@.name, frequency: count as nat },
            ));
        }
        i += 1;
    }
    assert(corpus.take(i as int) == corpus);
    hits
}

/// Searches with what came of compiling a pattern: with the expression where
/// there is one, and else the refusal with its reason.
pub fn search_by_compiled_regex(
    compiled: Result<regex::Regex, regex::Error>,
    docs: &Vec<InputDocument>,
) -> (outcome: Result<Vec<(String, u64)>, QueryError>)
    ensures
        match compiled {
            Ok(expression) => outcome matches Ok(hits) && hits_view(hits@) == regex_hits(
                corpus_view(docs@),
                expression,
            ),
            Err(error) => outcome matches Err(refusal) && refusal.diagnostic_text()
                == regex_diagnostic(error),
        },
{
    match compiled {
        Err(error) => Err(QueryError::InvalidQuery { diagnostic: describe_regex_error(&error) }),
        Ok(expression) => {
            let ghost corpus = corpus_view(docs@);
            let ghost frequency = |contents: Seq<char>| regex_match_count(expression, contents);
            let mut hits: Vec<(String, u64)> = Vec::new();
            let mut i: usize = 0;
            while i < docs.len()
                invariant
                    i <= docs.len(),
                    corpus == corpus_view(docs@),
                    frequency == |contents: Seq<char>| regex_match_count(expression, contents),
                    hits_view(hits@) == hits_by(corpus.take(i as int), frequency),
                decreases docs.len() - i,
            {
                let doc = &docs[i];
                let count = count_regex_matches(&expression, doc.contents().as_str());
                proof {
                    assert(corpus.take(i + 1).drop_last() == corpus.take(i as int));
                    assert(corpus.take(i + 1).last() == doc@);
                }
                if count > 0 {
                    let ghost before = hits_view(hits@);
                    hits.push((doc.name().clone(), count as u64));
                    assert(hits_view(hits@) == before.push(
                        Hit { name: doc@.name, frequency: count as nat },
                    ));
                }
                i += 1;
            }
            assert(corpus.take(i as int) == corpus);
            Ok(hits)
        },
    }
}

pub fn search_by_regex(term: &str, docs: &Vec<InputDocument>) -> (outcome: Result<
    Vec<(String, u64)>,
    QueryError,
>)
    ensures
        match compile_outcome(term@) {
            Ok(expression) => outcome matches Ok(hits) && hits_view(hits@) == regex_hits(
                corpus_view(docs@),
                expression,
            ),
            Err(error) => outcome matches Err(refusal) && refusal.diagnostic_text()
                == regex_diagnostic(error),
        },
{
    search_by_compiled_regex(compile_regex(term), docs)
}

/// What a search by `method` returns: the hits of the method in the order of
/// their rank. A search with a regular expression returns them where the
/// query is accepted as a pattern, and else the refusal with the reason that
/// was given for this query.
pub open spec fn is_outcome_of(
    method: SearchMethod,
    term: Seq<char>,
    index: IndexView,
    corpus: Seq<DocumentView>,
    outcome: Result<Vec<(String, u64)>, QueryError>,
) -> bool {
    match method {
        SearchMethod::StringMatch => outcome matches Ok(hits) && hits_view(hits@) == ranked(
            string_match_hits(corpus, term),
        ),
        SearchMethod::Index => outcome matches Ok(hits) && hits_view(hits@) == ranked(
            index.hits(term),
        ),
        SearchMethod::Regex => match compile_outcome(term) {
            Ok(expression) => outcome matches Ok(hits) && hits_view(hits@) == ranked(
                regex_hits(corpus, expression),
            ),
            Err(error) => outcome matches Err(refusal) && refusal.diagnostic_text()
                == regex_diagnostic(error),
        },
    }
}

/// Ranks the hits of a search that found some, and hands a refusal on.
pub fn rank_outcome(found: Result<Vec<(String, u64)>, QueryError>) -> (outcome: Result<
    Vec<(String, u64)>,
    QueryError,
>)
    ensures
        match found {
            Ok(hits) => outcome matches Ok(ranked_hits) && hits_view(ranked_hits@) == ranked(
                hits_view(hits@),
            ) && is_falling(hits_view(ranked_hits@)),
            Err(refusal) => outcome == found,
        },
{
    match found {
        Ok(hits) => Ok(rank(hits)),
        Err(refusal) => Err(refusal),
    }
}

/// Searches by the given method and ranks what it finds.
pub fn search(
    method: SearchMethod,
    term: &str,
    index: &DocumentIndex,
    docs: &Vec<InputDocument>,
) -> (outcome: Result<Vec<(String, u64)>, QueryError>)
    ensures
        is_outcome_of(method, term@, index@, corpus_view(docs@), outcome),
        outcome matches Ok(hits) ==> is_falling(hits_view(hits@)),
{
    let found = match method {
        SearchMethod::StringMatch => Ok(search_by_string_match(term, docs)),
        SearchMethod::Regex => search_by_regex(term, docs),
        SearchMethod::Index => Ok(search_by_index(term, index)),
    };
    rank_outcome(found)
}

/// The search function of a method: it takes a query, an index and a corpus,
/// whichever of them the method reads, and returns the ranked hits.
pub fn get_search_function(method: SearchMethod) -> (search_fn: impl Fn(
    &str,
    &DocumentIndex,
    &Vec<InputDocument>,
) -> Result<Vec<(String, u64)>, QueryError>)
    ensures
        forall|term: &str, index: &DocumentIndex, docs: &Vec<InputDocument>| #[trigger]
            call_requires(search_fn, (term, index, docs)),
        forall|
            term: &str,
            index: &DocumentIndex,
            docs: &Vec<InputDocument>,
            outcome: Result<Vec<(String, u64)>, QueryError>,
        | #[trigger]
            call_ensures(search_fn, (term, index, docs), outcome) ==> is_outcome_of(
                method,
                term@,
                index@,
                corpus_view(docs@),
                outcome,
            ),
{
    move |term: &str, index: &DocumentIndex, docs: &Vec<InputDocument>| -> (outcome: Result<
        Vec<(String, u64)>,
        QueryError,
    >)
        ensures
            is_outcome_of(method, term@, index@, corpus_view(docs@), outcome),
        { search(method, term, index, docs) }
}

} // verus!
