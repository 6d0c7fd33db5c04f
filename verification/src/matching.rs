//! Counting the occurrences of a literal pattern in a text.

use vstd::prelude::*;

verus! {

/// Number of occurrences of `pattern` in `text` that a scan from left to right
/// finds when it resumes behind each occurrence, so that no two of them overlap.
/// An empty pattern occurs nowhere.
pub open spec fn count_occurrences(text: Seq<char>, pattern: Seq<char>) -> nat
    decreases text.len(),
{
    if pattern.len() == 0 || text.len() < pattern.len() {
        0
    } else if pattern.is_prefix_of(text) {
        1 + count_occurrences(text.skip(pattern.len() as int), pattern)
    } else {
        count_occurrences(text.skip(1), pattern)
    }
}

/// Whether `pattern` stands in `text` at position `at`.
pub open spec fn occurs_at(text: Seq<char>, pattern: Seq<char>, at: int) -> bool {
    &&& 0 <= at
    &&& at + pattern.len() <= text.len()
    &&& text.subrange(at, at + pattern.len()) == pattern
}

/// A pattern that stands somewhere in a text is counted at least once.
pub proof fn lemma_occurrence_is_counted(text: Seq<char>, pattern: Seq<char>, at: int)
    requires
        pattern.len() > 0,
        occurs_at(text, pattern, at),
    ensures
        count_occurrences(text, pattern) >= 1,
    decreases text.len(),
{
    if !pattern.is_prefix_of(text) {
        if at == 0 {
            assert(text.subrange(0, pattern.len() as int) == pattern);
            assert(pattern.is_prefix_of(text));
        }
        let rest = text.skip(1);
        assert(rest.subrange(at - 1, at - 1 + pattern.len()) == text.subrange(
            at,
            at + pattern.len(),
        ));
        lemma_occurrence_is_counted(rest, pattern, at - 1);
    }
}

/// Whether `pattern` stands in `text` at position `at`.
pub fn matches_at(text: &Vec<char>, pattern: &Vec<char>, at: usize) -> (found: bool)
    requires
        at + pattern.len() <= text.len(),
    ensures
        found == occurs_at(text@, pattern@, at as int),
{
    let m = pattern.len();
    let mut k: usize = 0;
    while k < m
        invariant
            m == pattern.len(),
            at + m <= text.len(),
            k <= m,
            text@.subrange(at as int, at + k) == pattern@.take(k as int),
        decreases m - k,
    {
        if text[at + k] != pattern[k] {
            assert(text@.subrange(at as int, at + m)[k as int] != pattern@[k as int]);
            return false;
        }
        k += 1;
        assert(text@.subrange(at as int, at + k) == text@.subrange(at as int, at + k - 1).push(
            text@[at + k - 1],
        ));
        assert(pattern@.take(k as int) == pattern@.take(k - 1).push(pattern@[k - 1]));
    }
    assert(pattern@.take(m as int) == pattern@);
    true
}

/// Counts the non-overlapping occurrences of `pattern` in `text`.
pub fn count_matches(text: &Vec<char>, pattern: &Vec<char>) -> (count: usize)
    ensures
        count == count_occurrences(text@, pattern@),
{
    let m = pattern.len();
    let len = text.len();
    if m == 0 || len < m {
        return 0;
    }
    let mut at: usize = 0;
    let mut count: usize = 0;
    assert(text@.skip(0) == text@);
    while at <= len - m
        invariant
            m == pattern.len(),
            len == text.len(),
            0 < m <= len,
            at <= len,
            count <= at,
            count + count_occurrences(text@.skip(at as int), pattern@) == count_occurrences(
                text@,
                pattern@,
            ),
        decreases len - at,
    {
        let ghost rest = text@.skip(at as int);
        let found = matches_at(text, pattern, at);
        proof {
            assert(rest.len() >= m);
            assert(rest.take(m as int) == text@.subrange(at as int, at + m));
            assert(pattern@.is_prefix_of(rest) <==> rest.take(m as int) == pattern@);
        }
        if found {
            assert(rest.skip(m as int) == text@.skip(at + m));
            count += 1;
            at += m;
        } else {
            assert(rest.skip(1) == text@.skip(at + 1));
            at += 1;
        }
    }
    count
}

} // verus!
