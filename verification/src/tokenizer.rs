//! Cutting a text into its terms.

use vstd::prelude::*;
use crate::matching::occurs_at;
use crate::text::to_chars;

verus! {

/// Whether `c` is white space: one of the code points that Unicode marks as
/// White_Space.
pub open spec fn is_whitespace(c: char) -> bool {
    ||| '\u{9}' <= c <= '\u{d}'
    ||| c == ' '
    ||| c == '\u{85}'
    ||| c == '\u{a0}'
    ||| c == '\u{1680}'
    ||| '\u{2000}' <= c <= '\u{200a}'
    ||| c == '\u{2028}'
    ||| c == '\u{2029}'
    ||| c == '\u{202f}'
    ||| c == '\u{205f}'
    ||| c == '\u{3000}'
}

/// Length of the longest prefix of `text` that holds no white space.
pub open spec fn term_len(text: Seq<char>) -> nat
    decreases text.len(),
{
    if text.len() == 0 || is_whitespace(text[0]) {
        0
    } else {
        1 + term_len(text.skip(1))
    }
}

/// The terms of a text: its maximal runs of characters other than white space,
/// in the order in which they stand. Nothing is stripped and no case is folded.
pub open spec fn tokens(text: Seq<char>) -> Seq<Seq<char>>
    decreases text.len(),
{
    if text.len() == 0 {
        Seq::empty()
    } else if is_whitespace(text[0]) {
        tokens(text.skip(1))
    } else {
        proof {
            lemma_term_len_bounds(text);
        }
        let n = term_len(text) as int;
        seq![text.take(n)] + tokens(text.skip(n))
    }
}

/// A text's first term is no longer than the text, and is not empty where the
/// text starts with a character other than white space.
pub proof fn lemma_term_len_bounds(text: Seq<char>)
    ensures
        term_len(text) <= text.len(),
        text.len() > 0 && !is_whitespace(text[0]) ==> term_len(text) >= 1,
    decreases text.len(),
{
    if text.len() > 0 && !is_whitespace(text[0]) {
        lemma_term_len_bounds(text.skip(1));
    }
}

/// Each term of a text is a run of characters that stands in the text, is not
/// empty and holds no white space. The result is a place at which it stands.
pub proof fn lemma_term_stands_in_text(text: Seq<char>, k: int) -> (at: int)
    requires
        0 <= k < tokens(text).len(),
    ensures
        tokens(text)[k].len() > 0,
        occurs_at(text, tokens(text)[k], at),
        forall|j: int| 0 <= j < tokens(text)[k].len() ==> !is_whitespace(#[trigger] tokens(text)[k][j]),
    decreases text.len(),
{
    if is_whitespace(text[0]) {
        let rest = text.skip(1);
        let inner = lemma_term_stands_in_text(rest, k);
        let term = tokens(text)[k];
        assert(rest.subrange(inner, inner + term.len()) == text.subrange(
            inner + 1,
            inner + 1 + term.len(),
        ));
        inner + 1
    } else {
        lemma_term_len_bounds(text);
        lemma_term_len_run(text);
        let n = term_len(text) as int;
        let rest = text.skip(n);
        if k == 0 {
            assert(tokens(text)[0] == text.take(n));
            assert(text.subrange(0, n) == text.take(n));
            0
        } else {
            let inner = lemma_term_stands_in_text(rest, k - 1);
            let term = tokens(text)[k];
            assert(term == tokens(rest)[k - 1]);
            assert(rest.subrange(inner, inner + term.len()) == text.subrange(
                inner + n,
                inner + n + term.len(),
            ));
            inner + n
        }
    }
}

/// The first term of a text holds no white space.
pub proof fn lemma_term_len_run(text: Seq<char>)
    ensures
        forall|j: int| 0 <= j < term_len(text) ==> !is_whitespace(#[trigger] text[j]),
    decreases text.len(),
{
    lemma_term_len_bounds(text);
    if text.len() > 0 && !is_whitespace(text[0]) {
        lemma_term_len_run(text.skip(1));
        assert forall|j: int| 0 <= j < term_len(text) implies !is_whitespace(
            #[trigger] text[j],
        ) by {
            if j > 0 {
                assert(text.skip(1)[j - 1] == text[j]);
            }
        }
    }
}

/// Whether a character is white space.
pub fn char_is_whitespace(c: char) -> (r: bool)
    ensures
        r == is_whitespace(c),
{
    ('\u{9}' <= c && c <= '\u{d}') || c == ' ' || c == '\u{85}' || c == '\u{a0}' || c == '\u{1680}'
        || ('\u{2000}' <= c && c <= '\u{200a}') || c == '\u{2028}' || c == '\u{2029}' || c
        == '\u{202f}' || c == '\u{205f}' || c == '\u{3000}'
}

/// The terms that a vector of character vectors stands for.
pub open spec fn terms_view(terms: Seq<Vec<char>>) -> Seq<Seq<char>> {
    Seq::new(terms.len(), |i: int| terms[i]@)
}

/// Splits a text, given as its characters, into its terms.
pub fn tokenize_chars(text: &Vec<char>) -> (terms: Vec<Vec<char>>)
    ensures
        terms_view(terms@) == tokens(text@),
{
    let len = text.len();
    let mut terms: Vec<Vec<char>> = Vec::new();
    let mut at: usize = 0;
    assert(text@.skip(0) == text@);
    while at < len
        invariant
            len == text.len(),
            at <= len,
            terms_view(terms@) + tokens(text@.skip(at as int)) == tokens(text@),
        decreases len - at,
    {
        let ghost rest = text@.skip(at as int);
        if char_is_whitespace(text[at]) {
            assert(rest.skip(1) == text@.skip(at + 1));
            at += 1;
        } else {
            let start = at;
            let mut term: Vec<char> = Vec::new();
            while at < len && !char_is_whitespace(text[at])
                invariant
                    len == text.len(),
                    start <= at <= len,
                    term@ == text@.subrange(start as int, at as int),
                    term_len(text@.skip(start as int)) == (at - start) + term_len(
                        text@.skip(at as int),
                    ),
                decreases len - at,
            {
                assert(text@.skip(at as int).skip(1) == text@.skip(at + 1));
                term.push(text[at]);
                at += 1;
            }
            proof {
                let n = term_len(rest) as int;
                assert(n == at - start);
                assert(rest.take(n) == term@);
                assert(rest.skip(n) == text@.skip(at as int));
                assert(tokens(rest) == seq![term@] + tokens(text@.skip(at as int)));
            }
            let ghost before = terms_view(terms@);
            terms.push(term);
            assert(terms_view(terms@) == before + seq![term@]);
        }
    }
    assert(terms_view(terms@) + Seq::<Seq<char>>::empty() == terms_view(terms@));
    terms
}

/// Splits a text into its terms.
pub fn tokenize(text: &str) -> (terms: Vec<Vec<char>>)
    ensures
        terms_view(terms@) == tokens(text@),
{
    let chars = to_chars(text);
    tokenize_chars(&chars)
}

} // verus!
