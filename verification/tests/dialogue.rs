use doc_search::dialogue::chosen_method;
use doc_search::dialogue::decimal_text;
use doc_search::dialogue::fmt_duration;
use doc_search::dialogue::iteration_count;
use doc_search::dialogue::search_term;
use doc_search::dialogue::trim;
use doc_search::dialogue::wants_to_continue;
use doc_search::indexing::SearchMethod;

#[test]
fn trim_cuts_white_space_off_both_ends() {
    assert_eq!(trim("  warp velocity \n"), "warp velocity");
    assert_eq!(trim("warp"), "warp");
    assert_eq!(trim("\t\u{a0}x\u{3000}"), "x");
    assert_eq!(trim(" \t "), "");
    assert_eq!(trim(""), "");
    assert_eq!(trim(" \u{e9}t\u{e9} "), "\u{e9}t\u{e9}");
}

#[test]
fn trim_agrees_with_the_standard_trim() {
    for text in ["", " ", "a", " a", "a ", "  a b  ", "\n\na\tb\r\n", "\u{2003}x y\u{2029}", "\u{200b} a"] {
        assert_eq!(trim(text), text.trim());
    }
}

#[test]
fn search_term_is_the_line_without_the_space_around_it() {
    assert_eq!(search_term("velocity\n"), Some("velocity".to_string()));
    assert_eq!(search_term("  warp velocity  \r\n"), Some("warp velocity".to_string()));
}

#[test]
fn search_term_of_a_blank_line_is_none() {
    assert_eq!(search_term(""), None);
    assert_eq!(search_term("\n"), None);
    assert_eq!(search_term("  \t \r\n"), None);
}

#[test]
fn chosen_method_reads_one_two_and_three() {
    assert_eq!(chosen_method("1"), Ok(SearchMethod::StringMatch));
    assert_eq!(chosen_method("2\n"), Ok(SearchMethod::Regex));
    assert_eq!(chosen_method("  3 \r\n"), Ok(SearchMethod::Index));
}

#[test]
fn chosen_method_refuses_every_other_answer() {
    for answer in ["", "\n", "0", "4", "11", "1 2", "one", "1.", "\u{661}"] {
        assert_eq!(chosen_method(answer), Err("Unrecognized method".to_string()));
    }
}

#[test]
fn wants_to_continue_unless_the_answer_is_no() {
    assert!(!wants_to_continue("no"));
    assert!(!wants_to_continue("no\n"));
    assert!(!wants_to_continue("  no  "));
    assert!(wants_to_continue(""));
    assert!(wants_to_continue("\n"));
    assert!(wants_to_continue("yes"));
    assert!(wants_to_continue("No"));
    assert!(wants_to_continue("n o"));
    assert!(wants_to_continue("nope"));
    assert!(wants_to_continue("n"));
}

#[test]
fn iteration_count_reads_a_number() {
    assert_eq!(iteration_count("10\n"), Some(10));
    assert_eq!(iteration_count("  250  "), Some(250));
    assert_eq!(iteration_count("0"), Some(0));
    assert_eq!(iteration_count("007"), Some(7));
    assert_eq!(iteration_count("+5"), Some(5));
    assert_eq!(iteration_count("4294967295"), Some(u32::MAX));
}

#[test]
fn iteration_count_refuses_what_is_no_count() {
    for answer in ["", "\n", "+", "-1", "ten", "1 0", "1.5", "4294967296", "99999999999999999999999", "1e3", "++1", "1+", "\u{661}"] {
        assert_eq!(iteration_count(answer), None);
    }
}

#[test]
fn iteration_count_agrees_with_the_standard_parse() {
    for answer in ["", "0", "1", "+1", "-1", "-0", "+0", "12345", "4294967295", "4294967296", "42949672950",
                   "00000000000000000001", " 7 ", "7\r\n", "x", "1x", "x1", "+", "+-1", "0x10"] {
        assert_eq!(iteration_count(answer), answer.trim().parse::<u32>().ok());
    }
}

#[test]
fn fmt_duration_shows_milliseconds_or_microseconds() {
    assert_eq!(fmt_duration(12, 12345), "12 ms");
    assert_eq!(fmt_duration(1, 1000), "1 ms");
    assert_eq!(fmt_duration(0, 999), "999 \u{3bc}s");
    assert_eq!(fmt_duration(0, 0), "0 \u{3bc}s");
    assert_eq!(fmt_duration(1500, 1500000), "1500 ms");
    assert_eq!(fmt_duration(u64::MAX, 0), "18446744073709551615 ms");
}

#[test]
fn decimal_text_writes_a_number_to_the_base_ten() {
    for number in [0u64, 1, 9, 10, 11, 99, 100, 101, 1234567890, 9007199254740993, u64::MAX] {
        assert_eq!(decimal_text(number), number.to_string());
    }
}
