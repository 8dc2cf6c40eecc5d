use e4code::pattern::{char_span_of, compile_regex, compile_regex_with_cache, RegexCache};
use e4code::search::{
    count_all_occurrences, find_next_advanced, find_previous_advanced, replace_all_advanced,
    replace_selection_advanced, splice_byte_matches, SearchError, SearchMatch,
};

fn m(start: usize, end: usize) -> Option<SearchMatch> {
    Some(SearchMatch { start, end })
}

#[test]
fn search_wraps_to_same_match() {
    let r = find_next_advanced("xneedlex", 7, "needle", true, false, false).unwrap();
    assert_eq!(r, m(1, 7));
    let r = find_next_advanced("xneedlex", 1, "needle", true, false, false).unwrap();
    assert_eq!(r, m(1, 7));
}

#[test]
fn search_next_starts_after_cursor() {
    let r = find_next_advanced("abcabc", 0, "abc", true, false, false).unwrap();
    assert_eq!(r, m(3, 6));
    let r = find_next_advanced("abcabc", 3, "abc", true, false, false).unwrap();
    assert_eq!(r, m(0, 3));
}

#[test]
fn search_previous_ends_before_cursor() {
    assert_eq!(find_previous_advanced("abcabc", 6, "abc", true, false, false).unwrap(), m(3, 6));
    assert_eq!(find_previous_advanced("abcabc", 5, "abc", true, false, false).unwrap(), m(0, 3));
    assert_eq!(find_previous_advanced("abcabc", 2, "abc", true, false, false).unwrap(), m(3, 6));
    assert_eq!(find_previous_advanced("abcabc", 99, "abc", true, false, false).unwrap(), m(3, 6));
}

#[test]
fn search_case_insensitive() {
    assert_eq!(find_next_advanced("xneedlex", 0, "NEEDLE", false, false, false).unwrap(), m(1, 7));
    assert_eq!(find_next_advanced("xneedlex", 0, "NEEDLE", true, false, false).unwrap(), None);
    assert_eq!(find_next_advanced("ÄÖ z", 3, "äö", false, false, false).unwrap(), m(0, 2));
}

#[test]
fn search_empty_pattern_finds_nothing() {
    assert_eq!(find_next_advanced("abc", 0, "", true, false, false).unwrap(), None);
    assert_eq!(find_previous_advanced("abc", 3, "", true, false, false).unwrap(), None);
    assert_eq!(find_next_advanced("", 0, "a", true, false, false).unwrap(), None);
}

#[test]
fn whole_word_returns_second_occurrence() {
    let r = find_next_advanced("concatenate cat", 0, "cat", true, true, false).unwrap();
    assert_eq!(r, m(12, 15));
    let r = find_next_advanced("concatenate cat", 0, "cat", true, false, false).unwrap();
    assert_eq!(r, m(3, 6));
    let r = find_previous_advanced("concatenate cat", 15, "cat", true, true, false).unwrap();
    assert_eq!(r, m(12, 15));
    assert_eq!(count_all_occurrences("concatenate cat", "cat", true, true, false).unwrap(), 1);
    assert_eq!(count_all_occurrences("concatenate cat", "cat", true, false, false).unwrap(), 2);
}

#[test]
fn whole_word_underscore_is_word_char() {
    assert_eq!(find_next_advanced("a_cat cat", 0, "cat", true, true, false).unwrap(), m(6, 9));
}

#[test]
fn replace_all_reverse_order() {
    let r = replace_all_advanced("aaa", "a", "bb", true, false, false).unwrap();
    assert_eq!(r.text, "bbbbbb");
    assert_eq!(r.count, 3);
    let starts: Vec<usize> = r.edits.iter().map(|e| e.start).collect();
    assert_eq!(starts, vec![2, 1, 0]);
    assert!(r.edits.iter().all(|e| e.text == "bb" && e.end == e.start + 1));
}

#[test]
fn replace_all_non_overlapping() {
    let r = replace_all_advanced("aaaa", "aa", "b", true, false, false).unwrap();
    assert_eq!(r.text, "bb");
    assert_eq!(r.count, 2);
}

#[test]
fn replace_all_whole_word_and_case() {
    let r = replace_all_advanced("cat concat Cat", "cat", "dog", true, true, false).unwrap();
    assert_eq!(r.text, "dog concat Cat");
    assert_eq!(r.count, 1);
    let r = replace_all_advanced("cat concat Cat", "cat", "dog", false, true, false).unwrap();
    assert_eq!(r.text, "dog concat dog");
    assert_eq!(r.count, 2);
    let r = replace_all_advanced("Aa", "a", "bb", false, false, false).unwrap();
    assert_eq!(r.text, "bbbb");
}

#[test]
fn replace_all_nothing_found() {
    let r = replace_all_advanced("hello", "z", "y", true, false, false).unwrap();
    assert_eq!(r.text, "hello");
    assert_eq!(r.count, 0);
    assert!(r.edits.is_empty());
    let r = replace_all_advanced("hello", "", "y", true, false, false).unwrap();
    assert_eq!(r.text, "hello");
    assert_eq!(r.count, 0);
}

#[test]
fn invalid_regex_rejected() {
    let e = find_next_advanced("a(b", 0, "(", true, false, true);
    assert!(matches!(e, Err(SearchError::InvalidPattern(_))));
    let e = find_previous_advanced("a(b", 0, "(", false, false, true);
    assert!(matches!(e, Err(SearchError::InvalidPattern(_))));
    let e = replace_all_advanced("a(b", "(", "x", true, false, true);
    assert!(matches!(e, Err(SearchError::InvalidPattern(_))));
    let e = count_all_occurrences("a(b", "(", true, false, true);
    assert!(matches!(e, Err(SearchError::InvalidPattern(_))));
    assert!(compile_regex("(", true).is_err());
    assert!(compile_regex("(", false).is_err());
    if let Err(SearchError::InvalidPattern(msg)) = find_next_advanced("x", 0, "(", true, false, true) {
        assert!(!msg.is_empty());
    }
}

#[test]
fn regex_next_and_wrap() {
    assert_eq!(find_next_advanced("a1b22c333", 0, r"\d+", true, false, true).unwrap(), m(1, 2));
    assert_eq!(find_next_advanced("a1b22c333", 1, r"\d+", true, false, true).unwrap(), m(3, 5));
    assert_eq!(find_next_advanced("a1b22c333", 8, r"\d+", true, false, true).unwrap(), m(1, 2));
    assert_eq!(find_next_advanced("abc", 0, r"\d+", true, false, true).unwrap(), None);
}

#[test]
fn regex_positions_are_characters() {
    assert_eq!(find_next_advanced("é1é22", 0, r"\d+", true, false, true).unwrap(), m(1, 2));
    assert_eq!(find_next_advanced("é1é22", 1, r"\d+", true, false, true).unwrap(), m(3, 5));
    assert_eq!(find_previous_advanced("é1é22", 5, r"\d+", true, false, true).unwrap(), m(3, 5));
}

#[test]
fn regex_previous_and_wrap() {
    assert_eq!(find_previous_advanced("a1b22c333", 9, r"\d+", true, false, true).unwrap(), m(6, 9));
    assert_eq!(find_previous_advanced("a1b22c333", 5, r"\d+", true, false, true).unwrap(), m(3, 5));
    assert_eq!(find_previous_advanced("a1b22c333", 0, r"\d+", true, false, true).unwrap(), m(6, 9));
}

#[test]
fn regex_case_flag() {
    assert_eq!(find_next_advanced("ABC", 0, "b", false, false, true).unwrap(), m(1, 2));
    assert_eq!(find_next_advanced("ABC", 0, "b", true, false, true).unwrap(), None);
}

#[test]
fn regex_replace_all_expands_groups() {
    let r = replace_all_advanced("x1y22", r"(\d+)", "[$1]", true, false, true).unwrap();
    assert_eq!(r.text, "x[1]y[22]");
    assert_eq!(r.count, 2);
    assert_eq!(count_all_occurrences("x1y22", r"\d+", true, false, true).unwrap(), 2);
}

#[test]
fn replace_selection_plain_and_regex() {
    let sel = Some(SearchMatch { start: 0, end: 5 });
    let e = replace_selection_advanced("hello world", sel, "hello", "bye", true, false).unwrap().unwrap();
    assert_eq!((e.start, e.end, e.text.as_str()), (0, 5, "bye"));
    let e = replace_selection_advanced("hello world", sel, "(l+)", "[$1]", true, true).unwrap().unwrap();
    assert_eq!((e.start, e.end, e.text.as_str()), (0, 5, "he[ll]o"));
    assert_eq!(replace_selection_advanced("hello world", sel, "z+", "y", true, true).unwrap(), None);
    assert_eq!(replace_selection_advanced("hello world", None, "hello", "bye", true, false).unwrap(), None);
    let bad = Some(SearchMatch { start: 3, end: 50 });
    assert_eq!(replace_selection_advanced("hello", bad, "hello", "bye", true, false).unwrap(), None);
    assert!(matches!(
        replace_selection_advanced("hello", sel, "(", "x", true, true),
        Err(SearchError::InvalidPattern(_))
    ));
}

#[test]
fn regex_cache_reuses_and_rejects() {
    let mut cache = RegexCache::new();
    let a = compile_regex_with_cache(&mut cache, "ab+", false).unwrap();
    let b = compile_regex_with_cache(&mut cache, "ab+", false).unwrap();
    assert_eq!(a.as_str(), "(?i)ab+");
    assert_eq!(b.as_str(), "(?i)ab+");
    assert!(compile_regex_with_cache(&mut cache, "(", true).is_err());
    assert!(compile_regex_with_cache(&mut cache, "ab+", true).unwrap().regex().is_match("abb"));
    assert_eq!(compile_regex("x", false).unwrap().as_str(), "(?i)x");
}

#[test]
fn byte_spans_become_char_positions() {
    assert_eq!(char_span_of("é1é22", (2, 3)), m(1, 2));
    assert_eq!(char_span_of("é1é22", (5, 7)), m(3, 5));
    assert_eq!(char_span_of("é1é22", (1, 3)), None);
    assert_eq!(char_span_of("é1é22", (3, 2)), None);
    assert_eq!(char_span_of("abc", (0, 9)), None);
}

#[test]
fn splice_byte_matches_last_first() {
    let r = splice_byte_matches("é1é22", &vec![(2, 3), (5, 7)], &vec!["A".to_string(), "BB".to_string()]);
    assert_eq!(r.text, "éAéBB");
    assert_eq!(r.count, 2);
    let starts: Vec<usize> = r.edits.iter().map(|e| e.start).collect();
    assert_eq!(starts, vec![3, 1]);
}

#[test]
fn whole_word_match_may_start_with_non_word_char() {
    assert_eq!(find_next_advanced("- cat", 0, " cat", true, true, false).unwrap(), m(1, 5));
    assert_eq!(find_next_advanced("a cat", 0, " cat", true, true, false).unwrap(), None);
}

#[test]
fn regex_selection_replace_follows_case_setting() {
    let sel = Some(SearchMatch { start: 0, end: 3 });
    let e = replace_selection_advanced("ABC def", sel, "abc", "x", false, true).unwrap().unwrap();
    assert_eq!((e.start, e.end, e.text.as_str()), (0, 3, "x"));
    assert_eq!(replace_selection_advanced("ABC def", sel, "abc", "x", true, true).unwrap(), None);
}

#[test]
fn cached_regex_keeps_its_pattern() {
    let mut cache = RegexCache::new();
    let first = compile_regex_with_cache(&mut cache, "a.c", true).unwrap();
    let again = compile_regex_with_cache(&mut cache, "a.c", true).unwrap();
    assert_eq!(first.as_str(), "a.c");
    assert_eq!(again.regex().as_str(), "a.c");
    assert!(again.regex().is_match("abc"));
}
