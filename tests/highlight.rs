use e4code::highlight::{
    apply_incremental_highlighting, apply_incremental_syntax_highlighting,
    apply_syntax_highlighting, line_runs, plan_full, plan_incremental, plan_window,
    runs_of_tokens, styled_lines, tag_name, tokenize_document, Grammar, Rgba, StyledRun,
    TagCache, TagSpan, TokenStyle,
};
use syntect::highlighting::{Color, FontStyle, Style};
use e4code::settings::{AppSettings, DEFAULT_FONT_SIZE};
use e4code::text::split_lines;
use std::collections::HashSet;
use syntect::highlighting::ThemeSet;
use syntect::parsing::SyntaxSet;

fn style(v: u8) -> TokenStyle {
    TokenStyle {
        foreground: Rgba { r: v, g: 0, b: 0, a: 255 },
        background: Rgba { r: 0, g: 0, b: 0, a: 0 },
    }
}

fn run(v: u8, len: usize) -> StyledRun {
    StyledRun { style: style(v), len }
}

fn sample_lines(n: usize) -> Vec<Vec<StyledRun>> {
    (0..n).map(|l| vec![run((l % 3) as u8, 2), run(9, 3)]).collect()
}

fn spans_on(spans: &[TagSpan], line: usize) -> Vec<TagSpan> {
    spans.iter().copied().filter(|s| s.line == line).collect()
}

#[test]
fn full_plan_covers_every_line() {
    let lines = sample_lines(4);
    let mut cache = TagCache::new();
    let plan = plan_full(&lines, &mut cache);
    assert_eq!((plan.start_line, plan.end_line), (0, 4));
    assert_eq!(plan.spans.len(), 8);
    assert_eq!(plan.spans[0], TagSpan { line: 0, start: 0, end: 2, tag: 0 });
    assert_eq!(plan.spans[1], TagSpan { line: 0, start: 2, end: 5, tag: 1 });
    assert_eq!(plan.spans[2], TagSpan { line: 1, start: 0, end: 2, tag: 2 });
    assert_eq!(cache.len(), 4);
    assert_eq!(cache.style(1), style(9));
    assert_eq!(cache.position(style(2)), 3);
    assert_eq!(cache.position(style(77)), 4);
}

#[test]
fn full_pass_twice_is_identical() {
    let lines = sample_lines(5);
    let mut cache = TagCache::new();
    let first = plan_full(&lines, &mut cache);
    let tags_after_first = cache.len();
    let second = plan_full(&lines, &mut cache);
    assert_eq!(first.spans, second.spans);
    assert_eq!(cache.len(), tags_after_first);
}

#[test]
fn incremental_window_is_padded_and_clamped() {
    let lines = sample_lines(20);
    let mut cache = TagCache::new();
    let dirty = HashSet::from([5, 7]);
    let plan = plan_incremental(&lines, &dirty, &mut cache).unwrap();
    assert_eq!((plan.start_line, plan.end_line), (2, 11));
    let plan = plan_incremental(&lines, &HashSet::from([0]), &mut cache).unwrap();
    assert_eq!((plan.start_line, plan.end_line), (0, 4));
    let plan = plan_incremental(&lines, &HashSet::from([19, -4]), &mut cache).unwrap();
    assert_eq!((plan.start_line, plan.end_line), (0, 20));
    let plan = plan_incremental(&sample_lines(5), &HashSet::from([100]), &mut cache).unwrap();
    assert_eq!((plan.start_line, plan.end_line), (0, 0));
    assert!(plan.spans.is_empty());
    assert!(plan_incremental(&lines, &HashSet::new(), &mut cache).is_none());
}

#[test]
fn incremental_line_equals_full_line() {
    let lines = sample_lines(12);
    let mut cache = TagCache::new();
    let full = plan_full(&lines, &mut cache);
    let inc = plan_incremental(&lines, &HashSet::from([6]), &mut cache).unwrap();
    for l in inc.start_line..inc.end_line {
        assert_eq!(spans_on(&inc.spans, l), spans_on(&full.spans, l));
    }
    assert!(spans_on(&inc.spans, 1).is_empty());
}

#[test]
fn window_plan_reuses_tags() {
    let lines = sample_lines(6);
    let mut cache = TagCache::new();
    let a = plan_window(&lines, 2, 3, &mut cache);
    assert_eq!(a, vec![TagSpan { line: 2, start: 0, end: 2, tag: 0 }, TagSpan { line: 2, start: 2, end: 5, tag: 1 }]);
    let b = plan_window(&lines, 2, 2, &mut cache);
    assert!(b.is_empty());
    assert_eq!(cache.len(), 2);
}

#[test]
fn tag_name_encodes_colors() {
    let s = TokenStyle {
        foreground: Rgba { r: 255, g: 0, b: 16, a: 255 },
        background: Rgba { r: 0, g: 10, b: 171, a: 0 },
    };
    assert_eq!(tag_name(s), "fg_ff0010ff_bg_000aab00");
}

#[test]
fn lines_keep_line_feeds() {
    assert_eq!(split_lines("a\nb\n"), vec!["a\n", "b\n", ""]);
    assert_eq!(split_lines(""), vec![""]);
    assert_eq!(split_lines("x"), vec!["x"]);
}

const SOURCE: &str = "fn main() {\n    /* open\n    still */ let x = 1;\n}\n";

#[test]
fn tokenizer_covers_each_line() {
    let ps = SyntaxSet::load_defaults_newlines();
    let ts = ThemeSet::load_defaults();
    let grammar = Grammar::for_extension(&ps, "rs").unwrap();
    let theme = &ts.themes["base16-ocean.dark"];
    let runs = tokenize_document(SOURCE, &grammar, theme);
    let lines = split_lines(SOURCE);
    assert_eq!(runs.len(), lines.len());
    for (r, l) in runs.iter().zip(lines.iter()) {
        let r = r.as_ref().expect("every line of the sample is styled");
        assert_eq!(r.iter().map(|x| x.len).sum::<usize>(), l.chars().count());
    }
    assert!(runs[0].as_ref().unwrap().len() > 1);
    let plain = styled_lines(&runs);
    assert_eq!(plain.len(), lines.len());
}

#[test]
fn unknown_extension_falls_back_to_plain_text() {
    let ps = SyntaxSet::load_defaults_newlines();
    let ts = ThemeSet::load_defaults();
    let theme = &ts.themes["base16-ocean.dark"];
    let grammar = Grammar::for_extension(&ps, "no-such-ext").unwrap();
    let runs = tokenize_document("fn x() {}\n", &grammar, theme);
    let first = runs[0].as_ref().unwrap();
    assert!(!first.is_empty());
    assert_eq!(first.iter().map(|r| r.len).sum::<usize>(), 10);
    assert!(first.iter().all(|r| r.style == first[0].style));
}

fn style_with(r: u8) -> Style {
    Style {
        foreground: Color { r, g: 1, b: 2, a: 255 },
        background: Color { r: 0, g: 0, b: 0, a: 0 },
        font_style: FontStyle::empty(),
    }
}

#[test]
fn token_runs_follow_tokens() {
    let tokens = vec![(style_with(7), "ab".to_string()), (style_with(9), "é\n".to_string())];
    let runs = runs_of_tokens(&tokens);
    assert_eq!(runs.len(), 2);
    assert_eq!(runs[0].len, 2);
    assert_eq!(runs[1].len, 2);
    assert_eq!(runs[0].style.foreground, Rgba { r: 7, g: 1, b: 2, a: 255 });
    assert_eq!(runs[1].style.foreground.r, 9);
    let ok = line_runs(Ok(tokens.clone()), 4).unwrap();
    assert_eq!(ok, runs);
    assert!(line_runs(Ok(tokens), 5).is_none());
}

#[test]
fn syntax_pass_idempotent_and_incremental_agrees() {
    let ps = SyntaxSet::load_defaults_newlines();
    let ts = ThemeSet::load_defaults();
    let grammar = Grammar::for_extension(&ps, "rs").unwrap();
    let theme = &ts.themes["base16-ocean.dark"];
    let mut cache = TagCache::new();
    let full = apply_syntax_highlighting(SOURCE, &grammar, theme, &mut cache);
    assert_eq!((full.start_line, full.end_line), (0, 5));
    assert!(!full.spans.is_empty());
    let n = cache.len();
    let again = apply_syntax_highlighting(SOURCE, &grammar, theme, &mut cache);
    assert_eq!(full.spans, again.spans);
    assert_eq!(cache.len(), n);
    let inc = apply_incremental_highlighting(SOURCE, &grammar, theme, &HashSet::from([2]), &mut cache).unwrap();
    assert_eq!((inc.start_line, inc.end_line), (0, 5));
    for l in 0..5 {
        assert_eq!(spans_on(&inc.spans, l), spans_on(&full.spans, l));
    }
    let win = apply_incremental_syntax_highlighting(SOURCE, &grammar, theme, 1, 1, &mut cache).unwrap();
    assert_eq!((win.start_line, win.end_line), (1, 2));
    assert_eq!(spans_on(&win.spans, 1), spans_on(&full.spans, 1));
    let all = apply_incremental_syntax_highlighting(SOURCE, &grammar, theme, -5, 100, &mut cache).unwrap();
    assert_eq!((all.start_line, all.end_line), (0, 5));
    assert!(apply_incremental_syntax_highlighting(SOURCE, &grammar, theme, 9, 20, &mut cache).is_none());
    assert!(apply_incremental_highlighting(SOURCE, &grammar, theme, &HashSet::new(), &mut cache).is_none());
}

#[test]
fn settings_defaults() {
    let s = AppSettings::default();
    assert_eq!(s.theme, "dark");
    assert_eq!(s.font, format!("Monospace {}", DEFAULT_FONT_SIZE));
    assert!(s.last_opened_directory.is_none());
    assert!(s.last_opened_files.is_none());
}
