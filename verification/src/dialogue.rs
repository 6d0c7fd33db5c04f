//! The rules of the dialogue with the one who searches: what an answer means,
//! and how an elapsed time is shown.

use vstd::prelude::*;
use vstd::string::StrSliceExecFns;
use crate::indexing::SearchMethod;
use crate::text::to_chars;
use crate::tokenizer::{char_is_whitespace, is_whitespace};

verus! {

/// A text without the white space at its start.
pub open spec fn trim_start(text: Seq<char>) -> Seq<char>
    decreases text.len(),
{
    if text.len() > 0 && is_whitespace(text[0]) {
        trim_start(text.skip(1))
    } else {
        text
    }
}

/// A text without the white space at its end.
pub open spec fn trim_end(text: Seq<char>) -> Seq<char>
    decreases text.len(),
{
    if text.len() > 0 && is_whitespace(text.last()) {
        trim_end(text.drop_last())
    } else {
        text
    }
}

/// A text without the white space at its start and at its end.
pub open spec fn trimmed(text: Seq<char>) -> Seq<char> {
    trim_end(trim_start(text))
}

/// Cuts the white space off the start and the end of a text.
pub fn trim(text: &str) -> (cut: &str)
    ensures
        cut@ == trimmed(text@),
{
    let chars = to_chars(text);
    let len = chars.len();
    let mut start: usize = 0;
    assert(chars@.skip(0) == chars@);
    while start < len && char_is_whitespace(chars[start])
        invariant
            len == chars.len(),
            start <= len,
            trim_start(chars@) == trim_start(chars@.skip(start as int)),
        decreases len - start,
    {
        assert(chars@.skip(start as int).skip(1) == chars@.skip(start + 1));
        start += 1;
    }
    let ghost rest = chars@.skip(start as int);
    assert(trim_start(chars@) == rest);
    let mut end: usize = len;
    assert(rest.take(rest.len() as int) == rest);
    while end > start && char_is_whitespace(chars[end - 1])
        invariant
            len == chars.len(),
            start <= end <= len,
            rest == chars@.skip(start as int),
            trim_end(rest) == trim_end(rest.take(end - start)),
        decreases end,
    {
        assert(rest.take(end - start).drop_last() == rest.take(end - start - 1));
        end -= 1;
    }
    assert(rest.take(end - start) == chars@.subrange(start as int, end as int));
    text.substring_char(start, end)
}

/// The query in a line that was typed: the line without the white space around
/// it, and none where nothing is left.
pub fn search_term(line: &str) -> (term: Option<String>)
    ensures
        match term {
            Some(query) => query@ == trimmed(line@) && query@.len() > 0,
            None => trimmed(line@).len() == 0,
        },
{
    let cut = trim(line);
    if cut.unicode_len() == 0 {
        None
    } else {
        Some(cut.to_owned())
    }
}

/// The method that an answer chooses, with the white space around it put aside.
pub open spec fn choice_of(answer: Seq<char>) -> Option<SearchMethod> {
    if trimmed(answer) == seq!['1'] {
        Some(SearchMethod::StringMatch)
    } else if trimmed(answer) == seq!['2'] {
        Some(SearchMethod::Regex)
    } else if trimmed(answer) == seq!['3'] {
        Some(SearchMethod::Index)
    } else {
        None
    }
}

/// The method that an answer chooses: the first for `1`, the second for `2`,
/// the third for `3`. Any other answer is refused.
pub fn chosen_method(answer: &str) -> (chosen: Result<SearchMethod, String>)
    ensures
        match chosen {
            Ok(method) => choice_of(answer@) == Some(method),
            Err(refusal) => choice_of(answer@) is None && refusal@ == "Unrecognized method"@,
        },
{
    let cut = to_chars(trim(answer));
    if cut.len() == 1 && cut[0] == '1' {
        assert(cut@ == seq!['1']);
        Ok(SearchMethod::StringMatch)
    } else if cut.len() == 1 && cut[0] == '2' {
        assert(cut@ == seq!['2']);
        Ok(SearchMethod::Regex)
    } else if cut.len() == 1 && cut[0] == '3' {
        assert(cut@ == seq!['3']);
        Ok(SearchMethod::Index)
    } else {
        assert(cut@ != seq!['1'] && cut@ != seq!['2'] && cut@ != seq!['3']) by {
            if cut.len() == 1 {
                assert(seq!['1'][0] == '1' && seq!['2'][0] == '2' && seq!['3'][0] == '3');
            } else {
                assert(seq!['1'].len() == 1 && seq!['2'].len() == 1 && seq!['3'].len() == 1);
            }
        }
        Err("Unrecognized method".to_owned())
    }
}

/// Whether an answer asks for another search: every answer does but `no`, with
/// the white space around it put aside.
pub fn wants_to_continue(answer: &str) -> (again: bool)
    ensures
        again == (trimmed(answer@) != seq!['n', 'o']),
{
    let cut = to_chars(trim(answer));
    if cut.len() == 2 && cut[0] == 'n' && cut[1] == 'o' {
        assert(cut@ == seq!['n', 'o']);
        false
    } else {
        assert(cut@ != seq!['n', 'o']) by {
            if cut.len() == 2 {
                assert(seq!['n', 'o'][0] == 'n' && seq!['n', 'o'][1] == 'o');
            } else {
                assert(seq!['n', 'o'].len() == 2);
            }
        }
        true
    }
}

/// Whether a character is one of the digits `0` to `9`.
pub open spec fn is_digit(c: char) -> bool {
    '0' <= c <= '9'
}

/// The number that digits write to the base ten.
pub open spec fn digits_value(digits: Seq<char>) -> nat
    decreases digits.len(),
{
    if digits.len() == 0 {
        0
    } else {
        digits_value(digits.drop_last()) * 10 + (digits.last() as nat - '0' as nat) as nat
    }
}

/// Every character is a digit.
pub open spec fn all_digits(digits: Seq<char>) -> bool {
    forall|i: int| 0 <= i < digits.len() ==> is_digit(#[trigger] digits[i])
}

/// The count that a text writes: one digit or more, with or without a plus
/// sign before them, that write a number of at most 32 bits.
pub open spec fn count_of(text: Seq<char>) -> Option<u32> {
    let digits = if text.len() > 0 && text[0] == '+' {
        text.skip(1)
    } else {
        text
    };
    if digits.len() > 0 && all_digits(digits) && digits_value(digits) <= u32::MAX {
        Some(digits_value(digits) as u32)
    } else {
        None
    }
}

/// The value of digits does not fall when more digits follow.
pub proof fn lemma_digits_value_grows(digits: Seq<char>, n: int)
    requires
        0 <= n <= digits.len(),
    ensures
        digits_value(digits.take(n)) <= digits_value(digits),
    decreases digits.len() - n,
{
    if n < digits.len() {
        assert(digits.take(n + 1).drop_last() == digits.take(n));
        lemma_digits_value_grows(digits, n + 1);
    } else {
        assert(digits.take(n) == digits);
    }
}

/// The number of searches that an answer asks for, with the white space around
/// it put aside: none where the answer writes no count.
pub fn iteration_count(answer: &str) -> (count: Option<u32>)
    ensures
        count == count_of(trimmed(answer@)),
{
    let cut = to_chars(trim(answer));
    let start: usize = if cut.len() > 0 && cut[0] == '+' {
        1
    } else {
        0
    };
    let ghost digits = cut@.skip(start as int);
    assert(cut@.skip(0) == cut@);
    if start == cut.len() {
        return None;
    }
    let mut value: u64 = 0;
    let mut i: usize = start;
    assert(digits.take(0) == Seq::<char>::empty());
    while i < cut.len()
        invariant
            start <= i <= cut.len(),
            cut@ == trimmed(answer@),
            start == if cut.len() > 0 && cut@[0] == '+' {
                1int
            } else {
                0int
            },
            cut@.skip(0) == cut@,
            digits == cut@.skip(start as int),
            all_digits(digits.take(i - start)),
            value == digits_value(digits.take(i - start)),
            value <= u32::MAX,
        decreases cut.len() - i,
    {
        let c = cut[i];
        assert(digits[i - start] == c);
        if !('0' <= c && c <= '9') {
            assert(!is_digit(digits[i - start]));
            return None;
        }
        let ghost longer = digits.take(i - start + 1);
        assert(longer.drop_last() == digits.take(i - start));
        assert(longer.last() == c);
        let digit = (c as u32 - '0' as u32) as u64;
        let next = value * 10 + digit;
        assert(next == digits_value(longer));
        if next > 0xffff_ffff {
            proof {
                lemma_digits_value_grows(digits, i - start + 1);
            }
            return None;
        }
        assert(all_digits(longer)) by {
            assert forall|j: int| 0 <= j < longer.len() implies is_digit(#[trigger] longer[j]) by {
                if j < i - start {
                    assert(longer[j] == digits.take(i - start)[j]);
                }
            }
        }
        value = next;
        i += 1;
    }
    assert(digits.take(i - start) == digits);
    Some(value as u32)
}

/// The character that writes a digit.
pub open spec fn digit_char(digit: nat) -> char {
    seq!['0', '1', '2', '3', '4', '5', '6', '7', '8', '9'][digit as int]
}

/// A number as it is written to the base ten.
pub open spec fn decimal(number: nat) -> Seq<char>
    decreases number,
{
    if number < 10 {
        seq![digit_char(number)]
    } else {
        decimal(number / 10).push(digit_char(number % 10))
    }
}

/// How an elapsed time is shown: in milliseconds where it took one or more,
/// and else in microseconds.
pub open spec fn duration_text(milliseconds: nat, microseconds: nat) -> Seq<char> {
    if milliseconds > 0 {
        decimal(milliseconds) + " ms"@
    } else {
        decimal(microseconds) + " \u{3bc}s"@
    }
}

/// The character that writes a digit.
fn digit_of(digit: u64) -> (c: char)
    requires
        digit < 10,
    ensures
        c == digit_char(digit as nat),
{
    if digit == 0 {
        '0'
    } else if digit == 1 {
        '1'
    } else if digit == 2 {
        '2'
    } else if digit == 3 {
        '3'
    } else if digit == 4 {
        '4'
    } else if digit == 5 {
        '5'
    } else if digit == 6 {
        '6'
    } else if digit == 7 {
        '7'
    } else if digit == 8 {
        '8'
    } else {
        '9'
    }
}

/// Writes a number to the base ten.
pub fn decimal_text(number: u64) -> (text: String)
    ensures
        text@ == decimal(number as nat),
{
    let mut digits: Vec<u64> = Vec::new();
    let mut rest = number;
    while rest >= 10
        invariant
            forall|i: int| 0 <= i < digits.len() ==> digits[i] < 10,
            decimal(number as nat) == decimal(rest as nat) + written(digits@),
        decreases rest,
    {
        let ghost earlier = digits@;
        let ghost before = written(earlier);
        digits.push(rest % 10);
        assert(digits@.drop_last() == earlier);
        assert(written(digits@) == seq![digit_char((rest % 10) as nat)] + before);
        assert(decimal(rest as nat) == decimal((rest / 10) as nat).push(
            digit_char((rest % 10) as nat),
        ));
        assert(decimal((rest / 10) as nat).push(digit_char((rest % 10) as nat)) + before
            == decimal((rest / 10) as nat) + (seq![digit_char((rest % 10) as nat)] + before));
        rest = rest / 10;
    }
    let mut text = String::new();
    text.push(digit_of(rest));
    let mut left = digits.len();
    assert(digits@.take(left as int) == digits@);
    while left > 0
        invariant
            left <= digits.len(),
            forall|i: int| 0 <= i < digits.len() ==> digits[i] < 10,
            decimal(number as nat) == text@ + written(digits@.take(left as int)),
        decreases left,
    {
        let ghost shown = digits@.take(left as int);
        assert(shown.drop_last() == digits@.take(left - 1));
        assert(shown.last() == digits@[left - 1]);
        let ghost before = text@;
        left -= 1;
        text.push(digit_of(digits[left]));
        assert(before + (seq![digit_char(digits@[left as int] as nat)] + written(
            digits@.take(left as int),
        )) == before.push(digit_char(digits@[left as int] as nat)) + written(
            digits@.take(left as int),
        ));
    }
    assert(text@ + Seq::<char>::empty() == text@);
    text
}

/// The digits of a number, the last one first.
pub open spec fn written(digits: Seq<u64>) -> Seq<char>
    decreases digits.len(),
{
    if digits.len() == 0 {
        Seq::empty()
    } else {
        seq![digit_char(digits.last() as nat)] + written(digits.drop_last())
    }
}

/// Shows an elapsed time, given in whole milliseconds and in whole
/// microseconds.
pub fn fmt_duration(milliseconds: u64, microseconds: u64) -> (text: String)
    ensures
        text@ == duration_text(milliseconds as nat, microseconds as nat),
{
    if milliseconds > 0 {
        let mut text = decimal_text(milliseconds);
        text.append(" ms");
        text
    } else {
        let mut text = decimal_text(microseconds);
        text.append(" \u{3bc}s");
        text
    }
}

} // verus!
