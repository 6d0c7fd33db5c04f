//! The words with which searches are timed.

use vstd::prelude::*;
use crate::dictionary::{term_before, TermDictionary};
use crate::indexing::input_document::{corpus_view, DocumentView, InputDocument};
use crate::indexing::QueryError;
use crate::pattern::{
    compile_outcome, compile_regex, describe_regex_error, is_regex_match, regex_diagnostic,
    regex_matches,
};
use crate::text::{to_chars, to_text};

verus! {

/// The pieces into which single spaces cut a text. Two spaces in a row, and a
/// space at either end, leave an empty piece.
pub open spec fn pieces(text: Seq<char>) -> Seq<Seq<char>>
    decreases text.len(),
{
    if text.len() == 0 {
        seq![Seq::empty()]
    } else {
        let earlier = pieces(text.drop_last());
        if text.last() == ' ' {
            earlier.push(Seq::empty())
        } else {
            earlier.drop_last().push(earlier.last().push(text.last()))
        }
    }
}

/// Cuts a text at its single spaces.
pub fn split_at_spaces(text: &str) -> (cut: Vec<String>)
    ensures
        cut@.len() == pieces(text@).len(),
        forall|k: int| 0 <= k < cut.len() ==> (#[trigger] cut[k])@ == pieces(text@)[k],
{
    let chars = to_chars(text);
    let mut cut: Vec<String> = Vec::new();
    let mut piece: Vec<char> = Vec::new();
    let mut i: usize = 0;
    assert(chars@.take(0) == Seq::<char>::empty());
    while i < chars.len()
        invariant
            i <= chars.len(),
            chars@ == text@,
            pieces(chars@.take(i as int)).len() == cut.len() + 1,
            forall|k: int|
                0 <= k < cut.len() ==> (#[trigger] cut[k])@ == pieces(chars@.take(i as int))[k],
            piece@ == pieces(chars@.take(i as int)).last(),
        decreases chars.len() - i,
    {
        assert(chars@.take(i + 1).drop_last() == chars@.take(i as int));
        assert(chars@.take(i + 1).last() == chars@[i as int]);
        if chars[i] == ' ' {
            cut.push(to_text(&piece));
            piece = Vec::new();
        } else {
            piece.push(chars[i]);
        }
        i += 1;
    }
    assert(chars@.take(i as int) == chars@);
    cut.push(to_text(&piece));
    cut
}

/// The number of documents, from the start of a corpus, whose words are taken.
pub open spec fn sampled(corpus: Seq<DocumentView>) -> int {
    if corpus.len() < 30 {
        corpus.len() as int
    } else {
        30
    }
}

/// `word` is the piece at `k` of the document at `d`.
pub open spec fn is_piece(corpus: Seq<DocumentView>, d: int, k: int, word: Seq<char>) -> bool {
    &&& 0 <= d < corpus.len()
    &&& 0 <= k < pieces(corpus[d].contents).len()
    &&& pieces(corpus[d].contents)[k] == word
}

/// `word` is a piece of one of the first `documents` documents of the corpus,
/// and the expression matches in it.
pub open spec fn is_sample_word(
    corpus: Seq<DocumentView>,
    documents: int,
    expression: regex::Regex,
    word: Seq<char>,
) -> bool {
    regex_matches(expression, word) && exists|d: int, k: int|
        d < documents && is_piece(corpus, d, k, word)
}

/// `word` is one of the first `pieces` pieces of the document at `d`.
pub open spec fn is_early_piece(
    corpus: Seq<DocumentView>,
    d: int,
    pieces: int,
    word: Seq<char>,
) -> bool {
    exists|k: int| k < pieces && is_piece(corpus, d, k, word)
}

/// The words stand in the dictionary order, none of them twice, and they are
/// the pieces of the first documents of the corpus in which the expression
/// matches.
pub open spec fn is_word_list(
    words: Seq<String>,
    corpus: Seq<DocumentView>,
    expression: regex::Regex,
) -> bool {
    &&& forall|i: int, j: int|
        0 <= i < j < words.len() ==> term_before((#[trigger] words[i])@, (#[trigger] words[j])@)
    &&& forall|word: Seq<char>|
        (exists|i: int| 0 <= i < words.len() && (#[trigger] words[i])@ == word) <==> is_sample_word(
            corpus,
            sampled(corpus),
            expression,
            word,
        )
}

/// The words to search for when searches are timed: the pieces of the first
/// thirty documents in which `expression` matches, each once, in the
/// dictionary order.
pub fn words_matching(expression: &regex::Regex, docs: &Vec<InputDocument>) -> (words: Vec<String>)
    ensures
        is_word_list(words@, corpus_view(docs@), *expression),
{
    let ghost corpus = corpus_view(docs@);
    let limit: usize = if docs.len() < 30 {
        docs.len()
    } else {
        30
    };
    let mut dictionary = TermDictionary::new();
    let mut d: usize = 0;
    assert forall|word: Seq<char>| !is_sample_word(corpus, 0, *expression, word) by {
        if is_sample_word(corpus, 0, *expression, word) {
            let (e, j) = choose|e: int, j: int| e < 0 && is_piece(corpus, e, j, word);
        }
    }
    while d < limit
        invariant
            d <= limit <= docs.len(),
            limit == sampled(corpus),
            corpus == corpus_view(docs@),
            dictionary.wf(),
            forall|word: Seq<char>|
                #[trigger] dictionary.postings(word).len() > 0 <==> is_sample_word(
                    corpus,
                    d as int,
                    *expression,
                    word,
                ),
        decreases limit - d,
    {
        let cut = split_at_spaces(docs[d].contents().as_str());
        let ghost all = pieces(corpus[d as int].contents);
        let mut k: usize = 0;
        while k < cut.len()
            invariant
                k <= cut.len(),
                d < limit <= docs.len(),
                corpus == corpus_view(docs@),
                all == pieces(corpus[d as int].contents),
                cut@.len() == all.len(),
                forall|j: int| 0 <= j < cut.len() ==> (#[trigger] cut[j])@ == all[j],
                dictionary.wf(),
                forall|word: Seq<char>|
                    #[trigger] dictionary.postings(word).len() > 0 <==> (is_sample_word(
                        corpus,
                        d as int,
                        *expression,
                        word,
                    ) || (regex_matches(*expression, word) && is_early_piece(
                        corpus,
                        d as int,
                        k as int,
                        word,
                    ))),
            decreases cut.len() - k,
        {
            let ghost before = dictionary;
            let ghost word = all[k as int];
            let matched = is_regex_match(expression, cut[k].as_str());
            if matched {
                let term = to_chars(cut[k].as_str());
                if dictionary.lookup(&term).is_none() {
                    dictionary.add_occurrence(term, 0);
                }
            }
            proof {
                assert(is_piece(corpus, d as int, k as int, word));
                assert forall|other: Seq<char>|
                    #[trigger] dictionary.postings(other).len() > 0 <==> (is_sample_word(
                        corpus,
                        d as int,
                        *expression,
                        other,
                    ) || (regex_matches(*expression, other) && is_early_piece(
                        corpus,
                        d as int,
                        k + 1,
                        other,
                    ))) by {
                    assert(dictionary.postings(other).len() > 0 <==> (before.postings(other).len()
                        > 0 || (matched && other == word)));
                    assert(before.postings(other).len() > 0 <==> (is_sample_word(
                        corpus,
                        d as int,
                        *expression,
                        other,
                    ) || (regex_matches(*expression, other) && is_early_piece(
                        corpus,
                        d as int,
                        k as int,
                        other,
                    ))));
                    if is_early_piece(corpus, d as int, k as int, other) {
                        let j = choose|j: int| j < k && is_piece(corpus, d as int, j, other);
                        assert(j < k + 1 && is_piece(corpus, d as int, j, other));
                    }
                    if is_early_piece(corpus, d as int, k + 1, other) {
                        let j = choose|j: int| j < k + 1 && is_piece(corpus, d as int, j, other);
                        if j < k {
                            assert(is_early_piece(corpus, d as int, k as int, other));
                        } else {
                            assert(other == word);
                        }
                    }
                    if other == word {
                        assert(k < k + 1 && is_piece(corpus, d as int, k as int, other));
                    }
                }
            }
            k += 1;
        }
        proof {
            assert forall|word: Seq<char>|
                #[trigger] dictionary.postings(word).len() > 0 <==> is_sample_word(
                    corpus,
                    d + 1,
                    *expression,
                    word,
                ) by {
                if is_sample_word(corpus, d as int, *expression, word) {
                    let (e, j) = choose|e: int, j: int| e < d && is_piece(corpus, e, j, word);
                    assert(e < d + 1 && is_piece(corpus, e, j, word));
                }
                if is_early_piece(corpus, d as int, k as int, word) {
                    let j = choose|j: int| j < k && is_piece(corpus, d as int, j, word);
                    assert(d < d + 1 && is_piece(corpus, d as int, j, word));
                }
                if is_sample_word(corpus, d + 1, *expression, word) {
                    let (e, j) = choose|e: int, j: int| e < d + 1 && is_piece(corpus, e, j, word);
                    if e < d {
                        assert(is_sample_word(corpus, d as int, *expression, word));
                    } else {
                        assert(j < k && is_piece(corpus, d as int, j, word));
                    }
                }
            }
        }
        d += 1;
    }
    let words = dictionary.terms();
    proof {
        assert forall|word: Seq<char>|
            (exists|i: int| 0 <= i < words.len() && (#[trigger] words[i])@ == word)
                <==> is_sample_word(corpus, sampled(corpus), *expression, word) by {
            assert(dictionary.postings(word).len() > 0 <==> is_sample_word(
                corpus,
                d as int,
                *expression,
                word,
            ));
        }
    }
    words
}

/// The words to search for when searches are timed, given what came of
/// compiling the pattern of a word: the words in which the expression matches
/// where there is one, and else the refusal with its reason.
pub fn words_of_compiled(
    compiled: Result<regex::Regex, regex::Error>,
    docs: &Vec<InputDocument>,
) -> (words: Result<Vec<String>, QueryError>)
    ensures
        match compiled {
            Ok(expression) => words matches Ok(list) && is_word_list(
                list@,
                corpus_view(docs@),
                expression,
            ),
            Err(error) => words matches Err(refusal) && refusal.diagnostic_text()
                == regex_diagnostic(error),
        },
{
    match compiled {
        Ok(expression) => Ok(words_matching(&expression, docs)),
        Err(error) => Err(QueryError::InvalidQuery { diagnostic: describe_regex_error(&error) }),
    }
}

/// The words to search for when searches are timed: those pieces of the first
/// thirty documents that are made of word characters alone. Where the pattern
/// of such a word is refused, the refusal is returned with its reason.
pub fn benchmark_words(docs: &Vec<InputDocument>) -> (words: Result<Vec<String>, QueryError>)
    ensures
        match compile_outcome("^[\\w]+$"@) {
            Ok(expression) => words matches Ok(list) && is_word_list(
                list@,
                corpus_view(docs@),
                expression,
            ),
            Err(error) => words matches Err(refusal) && refusal.diagnostic_text()
                == regex_diagnostic(error),
        },
{
    words_of_compiled(compile_regex("^[\\w]+$"), docs)
}

} // verus!
