use e4code::documents::is_buffer_modified;
use e4code::highlight::first_found;
use e4code::indentation::{detect_indent_style, indent_selection, outdent_selection};
use e4code::search::{get_selected_text_or_word, SearchMatch};
use e4code::text::TextEdit;

#[test]
fn indent_style_tabs_win() {
    assert_eq!(detect_indent_style("a\n\tb\n\tc\n  d\n"), (true, 0));
}

#[test]
fn indent_style_most_frequent_spaces() {
    assert_eq!(detect_indent_style("x\n  a\n    b\n    c\n  d\n    e\n"), (false, 4));
    assert_eq!(detect_indent_style("x\n  a\n    b\n"), (false, 2));
    assert_eq!(detect_indent_style("\tx\n  a\n"), (false, 2));
}

#[test]
fn indent_style_default_and_blank_lines() {
    assert_eq!(detect_indent_style("plain\ntext\n"), (false, 4));
    assert_eq!(detect_indent_style("   \n\t\n"), (false, 4));
    assert_eq!(detect_indent_style(""), (false, 4));
}

#[test]
fn indent_style_only_first_lines_count() {
    let mut text = String::new();
    for _ in 0..20 {
        text.push_str("x\n");
    }
    text.push_str("\ty\n");
    assert_eq!(detect_indent_style(&text), (false, 4));
}

#[test]
fn indent_edits_bottom_up() {
    let edits = indent_selection("ab\ncd\nef", 0, 1, false, 2);
    let got: Vec<(usize, usize, String)> = edits.iter().map(|e| (e.start, e.end, e.text.clone())).collect();
    assert_eq!(got, vec![(3, 3, "  ".to_string()), (0, 0, "  ".to_string())]);
    let edits = indent_selection("ab\ncd", 1, 9, true, 0);
    assert_eq!(edits.len(), 1);
    assert_eq!((edits[0].start, edits[0].text.as_str()), (3, "\t"));
    assert!(indent_selection("ab", 3, 5, true, 0).is_empty());
}

#[test]
fn outdent_edits_remove_unit_or_partial() {
    let edits = outdent_selection("    a\n  b\nc\n", 0, 2, false, 4);
    let got: Vec<(usize, usize)> = edits.iter().map(|e| (e.start, e.end)).collect();
    assert_eq!(got, vec![(6, 8), (0, 4)]);
    assert!(edits.iter().all(|e| e.text.is_empty()));
    let edits = outdent_selection("\ta\n b\n", 0, 1, true, 0);
    let got: Vec<(usize, usize)> = edits.iter().map(|e| (e.start, e.end)).collect();
    assert_eq!(got, vec![(0, 1)]);
}

#[test]
fn selected_text_or_word_under_cursor() {
    let sel = Some(SearchMatch { start: 4, end: 9 });
    assert_eq!(get_selected_text_or_word("foo barbaz", sel, 0), "barba");
    assert_eq!(get_selected_text_or_word("foo bar baz", None, 5), "bar");
    assert_eq!(get_selected_text_or_word("foo bar baz", None, 4), "bar");
    assert_eq!(get_selected_text_or_word("foo bar", None, 99), "bar");
    assert_eq!(get_selected_text_or_word("", None, 0), "");
}

#[test]
fn buffer_modified_against_disk() {
    assert!(!is_buffer_modified("abc", Some("abc")));
    assert!(is_buffer_modified("abc", Some("abd")));
    assert!(is_buffer_modified("abc", None));
    assert!(!is_buffer_modified("", None));
}

#[test]
fn lookup_falls_back_to_second() {
    assert_eq!(first_found(Some(1), Some(2)), Some(1));
    assert_eq!(first_found(None, Some(2)), Some(2));
    assert_eq!(first_found::<i32>(None, None), None);
}

fn apply(text: &str, edits: &[TextEdit]) -> String {
    let mut chars: Vec<char> = text.chars().collect();
    for e in edits {
        let ins: Vec<char> = e.text.chars().collect();
        chars.splice(e.start..e.end, ins);
    }
    chars.into_iter().collect()
}

#[test]
fn outdent_after_indent_restores_text() {
    let text = "ab\n  cd\nef\n";
    for (is_tab, width) in [(false, 2), (false, 4), (true, 0)] {
        let indented = apply(text, &indent_selection(text, 0, 2, is_tab, width));
        let back = apply(&indented, &outdent_selection(&indented, 0, 2, is_tab, width));
        assert_eq!(back, text);
    }
}

#[test]
fn unicode_whitespace_lines_are_blank() {
    assert_eq!(detect_indent_style("x\n \u{3000}\n \u{2003}\n\ty\n"), (true, 0));
}
