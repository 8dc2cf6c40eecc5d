//! Syntax highlighting passes. A stateful line tokenizer styles every line
//! from the start of the document; a pass then turns the styled runs of the
//! lines it covers into spans tagged with cached style tags. A full pass
//! covers every line; an incremental pass covers the dirty lines padded by
//! a few lines of context.

use std::collections::HashSet;
use vstd::prelude::*;
use crate::text::{chars_of, is_line_split, split_lines, string_of, views};
use syntect::easy::HighlightLines;
use syntect::highlighting::{Color, FontStyle, Style, Theme};
use syntect::parsing::{SyntaxReference, SyntaxSet};

verus! {

broadcast use vstd::std_specs::hash::group_hash_axioms;

/// Lines of context added on each side of the dirty lines, so that
/// constructs cut at the edges of the edited region are restyled too.
pub const CONTEXT_LINES: i64 = 3;

/// A color with alpha, one byte per channel.
#[derive(Clone, Copy, Debug, PartialEq, Eq, Structural)]
pub struct Rgba {
    pub r: u8,
    pub g: u8,
    pub b: u8,
    pub a: u8,
}

/// The visual attributes of a token.
#[derive(Clone, Copy, Debug, PartialEq, Eq, Structural)]
pub struct TokenStyle {
    pub foreground: Rgba,
    pub background: Rgba,
}

/// A run of `len` characters of a line in one style.
#[derive(Clone, Copy, Debug, PartialEq, Eq, Structural)]
pub struct StyledRun {
    pub style: TokenStyle,
    pub len: usize,
}

/// Characters `start .. end` of line `line` in one style.
#[derive(Clone, Copy, Debug, PartialEq, Eq, Structural)]
pub struct StyleSpan {
    pub line: usize,
    pub start: usize,
    pub end: usize,
    pub style: TokenStyle,
}

/// Characters `start .. end` of line `line`, to receive style tag `tag`.
#[derive(Clone, Copy, Debug, PartialEq, Eq, Structural)]
pub struct TagSpan {
    pub line: usize,
    pub start: usize,
    pub end: usize,
    pub tag: usize,
}

/// Total length of a line's runs.
pub open spec fn runs_len(runs: Seq<StyledRun>) -> nat
    decreases runs.len(),
{
    if runs.len() == 0 {
        0
    } else {
        (runs[0].len + runs_len(runs.drop_first())) as nat
    }
}

/// Every line's runs fit in the address space.
pub open spec fn runs_fit(lines: Seq<Seq<StyledRun>>) -> bool {
    forall|l: int| 0 <= l < lines.len() ==> runs_len(#[trigger] lines[l]) <= usize::MAX
}

/// The spans of line `line` whose runs start at column `col`.
pub open spec fn line_spans(runs: Seq<StyledRun>, line: int, col: int) -> Seq<StyleSpan>
    decreases runs.len(),
{
    if runs.len() == 0 {
        Seq::empty()
    } else {
        seq![StyleSpan { line: line as usize, start: col as usize, end: (col + runs[0].len) as usize, style: runs[0].style }]
            + line_spans(runs.drop_first(), line, col + runs[0].len)
    }
}

/// The spans of lines `start .. end`, line by line.
pub open spec fn window_spans(lines: Seq<Seq<StyledRun>>, start: int, end: int) -> Seq<StyleSpan>
    decreases end - start,
{
    if end <= start {
        Seq::empty()
    } else {
        window_spans(lines, start, end - 1) + line_spans(lines[end - 1], end - 1, 0)
    }
}

/// Position of the first entry equal to `s`, or the length when absent.
pub open spec fn index_of(c: Seq<TokenStyle>, s: TokenStyle) -> int
    decreases c.len(),
{
    if c.len() == 0 {
        0
    } else if c[0] == s {
        0
    } else {
        1 + index_of(c.drop_first(), s)
    }
}

/// The cache after looking up `s`: unchanged when present, else extended.
pub open spec fn registered(c: Seq<TokenStyle>, s: TokenStyle) -> Seq<TokenStyle> {
    if c.contains(s) {
        c
    } else {
        c.push(s)
    }
}

/// The cache after looking up the style of every span, in order.
pub open spec fn register_all(c: Seq<TokenStyle>, spans: Seq<StyleSpan>) -> Seq<TokenStyle>
    decreases spans.len(),
{
    if spans.len() == 0 {
        c
    } else {
        register_all(registered(c, spans[0].style), spans.drop_first())
    }
}

/// The spans with each style replaced by its tag in cache `c`.
pub open spec fn tagged(spans: Seq<StyleSpan>, c: Seq<TokenStyle>) -> Seq<TagSpan> {
    spans.map_values(|s: StyleSpan| TagSpan { line: s.line, start: s.start, end: s.end, tag: index_of(c, s.style) as usize })
}

/// The runs of each line, as sequences.
pub open spec fn runs_view(lines: Seq<Vec<StyledRun>>) -> Seq<Seq<StyledRun>> {
    lines.map_values(|v: Vec<StyledRun>| v@)
}

/// No style appears twice.
pub open spec fn distinct_styles(c: Seq<TokenStyle>) -> bool {
    forall|i: int, j: int| 0 <= i < j < c.len() ==> c[i] != c[j]
}

/// Style tags created so far for one document, identified by position;
/// each distinct style has exactly one.
pub struct TagCache {
    styles: Vec<TokenStyle>,
}

impl View for TagCache {
    type V = Seq<TokenStyle>;

    closed spec fn view(&self) -> Seq<TokenStyle> {
        self.styles@
    }
}

pub proof fn lemma_index_of(c: Seq<TokenStyle>, s: TokenStyle)
    ensures
        0 <= index_of(c, s) <= c.len(),
        c.contains(s) <==> index_of(c, s) < c.len(),
        c.contains(s) ==> c[index_of(c, s)] == s,
        !c.contains(s) ==> index_of(c, s) == c.len(),
        forall|i: int| 0 <= i < index_of(c, s) ==> c[i] != s,
    decreases c.len(),
{
    if c.len() == 0 {
    } else if c[0] == s {
        assert(c.contains(s)) by {
            assert(c[0] == s);
        }
    } else {
        lemma_index_of(c.drop_first(), s);
        if c.contains(s) {
            let k = choose|k: int| 0 <= k < c.len() && c[k] == s;
            assert(c.drop_first()[k - 1] == s);
        }
        if c.drop_first().contains(s) {
            let k = choose|k: int| 0 <= k < c.drop_first().len() && c.drop_first()[k] == s;
            assert(c[k + 1] == s);
        }
        assert forall|i: int| 0 <= i < index_of(c, s) implies c[i] != s by {
            if i > 0 {
                assert(c[i] == c.drop_first()[i - 1]);
            }
        }
    }
}

impl TagCache {
    /// A cache with no tags.
    pub fn new() -> (r: Self)
        ensures
            r@ == Seq::<TokenStyle>::empty(),
            distinct_styles(r@),
    {
        TagCache { styles: Vec::new() }
    }

    /// Number of tags.
    pub fn len(&self) -> (r: usize)
        ensures
            r == self@.len(),
    {
        self.styles.len()
    }

    /// The style of tag `i`.
    pub fn style(&self, i: usize) -> (r: TokenStyle)
        requires
            i < self@.len(),
        ensures
            r == self@[i as int],
    {
        self.styles[i]
    }

    /// The tag of `s`, or the number of tags when it has none.
    pub fn position(&self, s: TokenStyle) -> (r: usize)
        ensures
            r == index_of(self@, s),
    {
        proof {
            lemma_index_of(self@, s);
        }
        let mut i: usize = 0;
        while i < self.styles.len()
            invariant
                i <= self@.len(),
                forall|k: int| 0 <= k < i ==> self@[k] != s,
                0 <= index_of(self@, s) <= self@.len(),
                self@.contains(s) ==> self@[index_of(self@, s)] == s,
                forall|k: int| 0 <= k < index_of(self@, s) ==> self@[k] != s,
                !self@.contains(s) ==> index_of(self@, s) == self@.len(),
            decreases self@.len() - i,
        {
            if self.styles[i] == s {
                assert(self@.contains(s));
                return i;
            }
            i = i + 1;
        }
        assert(!self@.contains(s));
        i
    }

    /// Looks up the tag of `s`, creating it when absent.
    pub fn tag_for(&mut self, s: TokenStyle) -> (r: usize)
        requires
            distinct_styles(old(self)@),
        ensures
            final(self)@ == registered(old(self)@, s),
            distinct_styles(final(self)@),
            r == index_of(final(self)@, s),
            r < final(self)@.len(),
    {
        proof {
            lemma_index_of(self@, s);
        }
        let i = self.position(s);
        if i < self.styles.len() {
            i
        } else {
            self.styles.push(s);
            proof {
                lemma_index_of(self@, s);
                assert(self@.contains(s)) by {
                    assert(self@[self@.len() - 1] == s);
                }
                assert forall|a: int, b: int| 0 <= a < b < self@.len() implies self@[a] != self@[b] by {
                    if b == self@.len() - 1 {
                        assert(old(self)@.contains(old(self)@[a]));
                    }
                }
            }
            i
        }
    }
}

/// Appends the spans of one line.
fn push_line_spans(runs: &Vec<StyledRun>, line: usize, out: &mut Vec<StyleSpan>)
    requires
        runs_len(runs@) <= usize::MAX,
    ensures
        final(out)@ == old(out)@ + line_spans(runs@, line as int, 0),
{
    let mut k: usize = 0;
    let mut col: usize = 0;
    assert(runs@.skip(0) =~= runs@);
    while k < runs.len()
        invariant
            k <= runs@.len(),
            runs_len(runs@) <= usize::MAX,
            col + runs_len(runs@.skip(k as int)) == runs_len(runs@),
            old(out)@ + line_spans(runs@, line as int, 0) == out@ + line_spans(runs@.skip(k as int), line as int, col as int),
        decreases runs@.len() - k,
    {
        let run = runs[k];
        assert(runs@.skip(k as int).drop_first() =~= runs@.skip(k as int + 1));
        assert(runs@.skip(k as int)[0] == run);
        let span = StyleSpan { line, start: col, end: col + run.len, style: run.style };
        assert(out@ + line_spans(runs@.skip(k as int), line as int, col as int) =~= out@.push(span)
            + line_spans(runs@.skip(k as int + 1), line as int, col + run.len));
        out.push(span);
        col = col + run.len;
        k = k + 1;
    }
    assert(runs@.skip(k as int) =~= Seq::<StyledRun>::empty());
    assert(out@ + Seq::<StyleSpan>::empty() =~= out@);
}

/// The spans of lines `start .. end` with their tags, registering every
/// style met in the cache. Tags of styles already cached are reused.
pub fn plan_window(lines: &Vec<Vec<StyledRun>>, start: usize, end: usize, cache: &mut TagCache) -> (r: Vec<TagSpan>)
    requires
        start <= end <= lines@.len(),
        runs_fit(runs_view(lines@)),
        distinct_styles(old(cache)@),
    ensures
        distinct_styles(final(cache)@),
        final(cache)@ == register_all(old(cache)@, window_spans(runs_view(lines@), start as int, end as int)),
        r@ == tagged(window_spans(runs_view(lines@), start as int, end as int), final(cache)@),
{
    let ghost lv = runs_view(lines@);
    let mut spans: Vec<StyleSpan> = Vec::new();
    let mut l: usize = start;
    while l < end
        invariant
            start <= l <= end <= lines@.len(),
            lv == runs_view(lines@),
            runs_fit(lv),
            spans@ == window_spans(lv, start as int, l as int),
        decreases end - l,
    {
        assert(lv[l as int] == lines@[l as int]@);
        push_line_spans(&lines[l], l, &mut spans);
        l = l + 1;
    }
    let mut k: usize = 0;
    assert(spans@.skip(0) =~= spans@);
    while k < spans.len()
        invariant
            k <= spans@.len(),
            distinct_styles(cache@),
            register_all(old(cache)@, spans@) == register_all(cache@, spans@.skip(k as int)),
        decreases spans@.len() - k,
    {
        assert(spans@.skip(k as int).drop_first() =~= spans@.skip(k as int + 1));
        cache.tag_for(spans[k].style);
        k = k + 1;
    }
    assert(spans@.skip(k as int) =~= Seq::<StyleSpan>::empty());
    let mut out: Vec<TagSpan> = Vec::new();
    let mut k: usize = 0;
    while k < spans.len()
        invariant
            k <= spans@.len(),
            out@ == tagged(spans@.take(k as int), cache@),
        decreases spans@.len() - k,
    {
        let sp = spans[k];
        let tag = cache.position(sp.style);
        out.push(TagSpan { line: sp.line, start: sp.start, end: sp.end, tag });
        k = k + 1;
        assert(out@ =~= tagged(spans@.take(k as int), cache@));
    }
    assert(spans@.take(k as int) =~= spans@);
    out
}

/// What a pass does: remove the style tags of lines `start_line ..
/// end_line`, then apply each span's tag.
pub struct HighlightPlan {
    pub start_line: usize,
    pub end_line: usize,
    pub spans: Vec<TagSpan>,
}

/// `m` is the least element of `d`.
pub open spec fn is_min(d: Set<i32>, m: i32) -> bool {
    d.contains(m) && forall|x: i32| d.contains(x) ==> m <= x
}

/// `m` is the greatest element of `d`.
pub open spec fn is_max(d: Set<i32>, m: i32) -> bool {
    d.contains(m) && forall|x: i32| d.contains(x) ==> x <= m
}

/// The lines an incremental pass restyles, as `start .. end`: the dirty
/// range `lo ..= hi` padded by the context lines on each side and clamped
/// to the `n` lines of the document; empty when nothing is left.
pub open spec fn padded_window(lo: int, hi: int, n: int) -> (int, int) {
    let s = if lo - CONTEXT_LINES >= 0 { lo - CONTEXT_LINES } else { 0 };
    let e = if hi + CONTEXT_LINES <= n - 1 { hi + CONTEXT_LINES } else { n - 1 };
    if s <= e {
        (s, e + 1)
    } else {
        (0, 0)
    }
}

/// `w` is the padded window of the dirty set `d` in a document of `n`
/// lines.
pub open spec fn dirty_window(d: Set<i32>, n: int, w: (int, int)) -> bool {
    forall|lo: i32, hi: i32| is_min(d, lo) && is_max(d, hi) ==> padded_window(lo as int, hi as int, n) == w
}

/// The least and greatest dirty lines.
fn dirty_bounds(dirty: &HashSet<i32>) -> (r: Option<(i32, i32)>)
    ensures
        r is None <==> dirty@.is_empty(),
        r matches Some((lo, hi)) ==> is_min(dirty@, lo) && is_max(dirty@, hi),
{
    let mut bounds: Option<(i32, i32)> = None;
    let ghost mut seen: Set<i32> = Set::empty();
    for x in it: dirty.iter()
        invariant
            it.seq().unref().to_set() == dirty@,
            seen == it.seq().unref().take(it.index() as int).to_set(),
            it.index() == it.seq().len() ==> seen == dirty@,
            bounds is None ==> seen == Set::<i32>::empty(),
            bounds matches Some((lo, hi)) ==> {
                &&& seen.contains(lo)
                &&& seen.contains(hi)
                &&& forall|y: i32| seen.contains(y) ==> lo <= y <= hi
            },
    {
        let v = *x;
        let ghost k = it.index() as int;
        assert(it.seq().unref()[k] == v);
        assert(it.seq().unref().take(k + 1) =~= it.seq().unref().take(k).push(v));
        assert forall|y: i32| it.seq().unref().take(k + 1).to_set().contains(y) <==> seen.insert(v).contains(y) by {
            if it.seq().unref().take(k + 1).to_set().contains(y) {
                let i = choose|i: int| 0 <= i < k + 1 && #[trigger] it.seq().unref().take(k + 1)[i] == y;
                if i < k {
                    assert(it.seq().unref().take(k)[i] == y);
                }
            }
            if seen.contains(y) {
                let i = choose|i: int| 0 <= i < k && #[trigger] it.seq().unref().take(k)[i] == y;
                assert(it.seq().unref().take(k + 1)[i] == y);
            }
            if y == v {
                assert(it.seq().unref().take(k + 1)[k] == y);
            }
        }
        assert(it.seq().unref().take(k + 1).to_set() =~= seen.insert(v));
        assert(k + 1 == it.seq().len() ==> it.seq().unref().take(k + 1) =~= it.seq().unref());
        proof {
            seen = seen.insert(v);
        }
        bounds = match bounds {
            None => Some((v, v)),
            Some((lo, hi)) => Some((if v < lo { v } else { lo }, if v > hi { v } else { hi })),
        };
    }
    proof {
        if bounds is None && !dirty@.is_empty() {
            let y = dirty@.choose();
            assert(dirty@.contains(y));
        }
    }
    bounds
}

/// Styles every line: the plan of a full pass over lines tokenized as
/// `lines`.
pub fn plan_full(lines: &Vec<Vec<StyledRun>>, cache: &mut TagCache) -> (r: HighlightPlan)
    requires
        runs_fit(runs_view(lines@)),
        distinct_styles(old(cache)@),
    ensures
        distinct_styles(final(cache)@),
        r.start_line == 0,
        r.end_line == lines@.len(),
        final(cache)@ == register_all(old(cache)@, window_spans(runs_view(lines@), 0, lines@.len() as int)),
        r.spans@ == tagged(window_spans(runs_view(lines@), 0, lines@.len() as int), final(cache)@),
{
    let spans = plan_window(lines, 0, lines.len(), cache);
    HighlightPlan { start_line: 0, end_line: lines.len(), spans }
}

/// Restyles the dirty lines and their context: the plan of an incremental
/// pass over lines tokenized as `lines`. Nothing is planned when no line is
/// dirty.
pub fn plan_incremental(lines: &Vec<Vec<StyledRun>>, dirty: &HashSet<i32>, cache: &mut TagCache) -> (r: Option<HighlightPlan>)
    requires
        runs_fit(runs_view(lines@)),
        distinct_styles(old(cache)@),
    ensures
        distinct_styles(final(cache)@),
        r is None <==> dirty@.is_empty(),
        r is None ==> final(cache)@ == old(cache)@,
        r matches Some(p) ==> {
            &&& dirty_window(dirty@, lines@.len() as int, (p.start_line as int, p.end_line as int))
            &&& final(cache)@ == register_all(old(cache)@, window_spans(runs_view(lines@), p.start_line as int, p.end_line as int))
            &&& p.spans@ == tagged(window_spans(runs_view(lines@), p.start_line as int, p.end_line as int), final(cache)@)
        },
{
    let (lo, hi) = match dirty_bounds(dirty) {
        Some(b) => b,
        None => return None,
    };
    let n = lines.len();
    let lo = lo as i64;
    let hi = hi as i64;
    let s: i64 = if lo - CONTEXT_LINES >= 0 { lo - CONTEXT_LINES } else { 0 };
    let (start, end) = if (n as u64) == 0 {
        (0usize, 0usize)
    } else {
        let last = (n - 1) as u64;
        let e: u64 = if hi + CONTEXT_LINES <= 0 {
            0
        } else if ((hi + CONTEXT_LINES) as u64) <= last {
            (hi + CONTEXT_LINES) as u64
        } else {
            last
        };
        if hi + CONTEXT_LINES < 0 || (s as u64) > e {
            (0usize, 0usize)
        } else {
            (s as usize, (e + 1) as usize)
        }
    };
    proof {
        assert forall|a: i32, b: i32| is_min(dirty@, a) && is_max(dirty@, b) implies padded_window(
            a as int,
            b as int,
            n as int,
        ) == (start as int, end as int) by {
            assert(a <= lo && lo <= a);
            assert(b <= hi && hi <= b);
        }
    }
    let spans = plan_window(lines, start, end, cache);
    Some(HighlightPlan { start_line: start, end_line: end, spans })
}

proof fn lemma_register_keeps(c: Seq<TokenStyle>, spans: Seq<StyleSpan>)
    ensures
        forall|s: TokenStyle| c.contains(s) ==> register_all(c, spans).contains(s),
        forall|k: int| 0 <= k < spans.len() ==> register_all(c, spans).contains(#[trigger] spans[k].style),
    decreases spans.len(),
{
    if spans.len() > 0 {
        let c1 = registered(c, spans[0].style);
        assert(c1.contains(spans[0].style)) by {
            if !c.contains(spans[0].style) {
                assert(c1[c.len() as int] == spans[0].style);
            }
        }
        assert forall|s: TokenStyle| c.contains(s) implies c1.contains(s) by {
            if !c.contains(spans[0].style) {
                let i = choose|i: int| 0 <= i < c.len() && c[i] == s;
                assert(c1[i] == s);
            }
        }
        lemma_register_keeps(c1, spans.drop_first());
        assert forall|k: int| 0 <= k < spans.len() implies register_all(c, spans).contains(#[trigger] spans[k].style) by {
            if k > 0 {
                assert(spans.drop_first()[k - 1] == spans[k]);
            }
        }
    }
}

proof fn lemma_register_present(c: Seq<TokenStyle>, spans: Seq<StyleSpan>)
    requires
        forall|k: int| 0 <= k < spans.len() ==> c.contains(#[trigger] spans[k].style),
    ensures
        register_all(c, spans) == c,
    decreases spans.len(),
{
    if spans.len() > 0 {
        assert(c.contains(spans[0].style));
        assert forall|k: int| 0 <= k < spans.drop_first().len() implies c.contains(#[trigger] spans.drop_first()[k].style) by {
            assert(spans.drop_first()[k] == spans[k + 1]);
        }
        lemma_register_present(c, spans.drop_first());
    }
}

/// A full pass run twice over the same tokenized document creates no new
/// tag the second time and applies the very same tagged spans.
pub proof fn lemma_full_pass_idempotent(lines: Seq<Seq<StyledRun>>, c: Seq<TokenStyle>)
    ensures
        ({
            let spans = window_spans(lines, 0, lines.len() as int);
            let once = register_all(c, spans);
            let twice = register_all(once, spans);
            &&& twice == once
            &&& tagged(spans, twice) == tagged(spans, once)
        }),
{
    let spans = window_spans(lines, 0, lines.len() as int);
    lemma_register_keeps(c, spans);
    lemma_register_present(register_all(c, spans), spans);
}

/// The spans of a pass that fall on line `l`.
pub open spec fn on_line(spans: Seq<StyleSpan>, l: int) -> Seq<StyleSpan> {
    spans.filter(|s: StyleSpan| s.line == l as usize)
}

proof fn lemma_line_spans_on(runs: Seq<StyledRun>, k: int, col: int, l: int)
    requires
        0 <= k <= usize::MAX,
        0 <= l <= usize::MAX,
    ensures
        on_line(line_spans(runs, k, col), l) == if k == l {
            line_spans(runs, k, col)
        } else {
            Seq::<StyleSpan>::empty()
        },
    decreases runs.len(),
{
    broadcast use vstd::seq_lib::group_filter_ensures;
    if runs.len() > 0 {
        let head = seq![StyleSpan { line: k as usize, start: col as usize, end: (col + runs[0].len) as usize, style: runs[0].style }];
        let rest = line_spans(runs.drop_first(), k, col + runs[0].len);
        lemma_line_spans_on(runs.drop_first(), k, col + runs[0].len, l);
        Seq::filter_distributes_over_add(head, rest, |s: StyleSpan| s.line == l as usize);
        assert(head.filter(|s: StyleSpan| s.line == l as usize) == if k == l { head } else { Seq::<StyleSpan>::empty() }) by {
            reveal_with_fuel(Seq::filter, 2);
            assert(head.drop_last() =~= Seq::<StyleSpan>::empty());
        }
        if k == l {
            assert(head + rest =~= line_spans(runs, k, col));
        } else {
            assert(Seq::<StyleSpan>::empty() + Seq::<StyleSpan>::empty() =~= Seq::<StyleSpan>::empty());
        }
    } else {
        assert(Seq::<StyleSpan>::empty().filter(|s: StyleSpan| s.line == l as usize) =~= Seq::<StyleSpan>::empty()) by {
            reveal_with_fuel(Seq::filter, 1);
        }
    }
}

/// The spans a pass over lines `start .. end` puts on line `l`: the spans
/// of that line's runs when it is inside the window, none otherwise.
pub proof fn lemma_window_on_line(lines: Seq<Seq<StyledRun>>, start: int, end: int, l: int)
    requires
        0 <= start,
        end <= lines.len() <= usize::MAX,
        0 <= l <= usize::MAX,
    ensures
        on_line(window_spans(lines, start, end), l) == if start <= l < end {
            line_spans(lines[l], l, 0)
        } else {
            Seq::<StyleSpan>::empty()
        },
    decreases end - start,
{
    if end <= start {
        assert(Seq::<StyleSpan>::empty().filter(|s: StyleSpan| s.line == l as usize) =~= Seq::<StyleSpan>::empty()) by {
            reveal_with_fuel(Seq::filter, 1);
        }
    } else {
        let prev = window_spans(lines, start, end - 1);
        let last = line_spans(lines[end - 1], end - 1, 0);
        lemma_window_on_line(lines, start, end - 1, l);
        lemma_line_spans_on(lines[end - 1], end - 1, 0, l);
        Seq::filter_distributes_over_add(prev, last, |s: StyleSpan| s.line == l as usize);
        if l == end - 1 {
            assert(Seq::<StyleSpan>::empty() + last =~= last);
        } else if start <= l < end - 1 {
            assert(line_spans(lines[l], l, 0) + Seq::<StyleSpan>::empty() =~= line_spans(lines[l], l, 0));
        } else {
            assert(Seq::<StyleSpan>::empty() + Seq::<StyleSpan>::empty() =~= Seq::<StyleSpan>::empty());
        }
    }
}

/// On every line an incremental pass restyles, it produces exactly the
/// style spans a full pass over the same tokenized document produces.
pub proof fn lemma_incremental_matches_full(lines: Seq<Seq<StyledRun>>, start: int, end: int, l: int)
    requires
        0 <= start <= l < end <= lines.len() <= usize::MAX,
    ensures
        on_line(window_spans(lines, start, end), l) == on_line(window_spans(lines, 0, lines.len() as int), l),
{
    lemma_window_on_line(lines, start, end, l);
    lemma_window_on_line(lines, 0, lines.len() as int, l);
}

#[verifier::external_type_specification]
pub struct ExColor(Color);

#[verifier::external_type_specification]
#[verifier::external_body]
pub struct ExFontStyle(FontStyle);

#[verifier::external_type_specification]
pub struct ExStyle(Style);

#[verifier::external_type_specification]
#[verifier::external_body]
pub struct ExTheme(Theme);

#[verifier::external_type_specification]
#[verifier::external_body]
pub struct ExSyntaxSet(SyntaxSet);

#[verifier::external_type_specification]
#[verifier::external_body]
pub struct ExSyntaxReference(SyntaxReference);

#[verifier::external_type_specification]
#[verifier::external_body]
pub struct ExHighlightLines<'a>(HighlightLines<'a>);

#[verifier::external_type_specification]
#[verifier::external_body]
pub struct ExSyntectError(syntect::Error);

/// A grammar together with the syntax set it was found in. The tokenizer
/// must be given the set its grammar came from, so the two are only ever
/// handed out together, as a lookup in one set made them.
pub struct Grammar<'a> {
    set: &'a SyntaxSet,
    syntax: &'a SyntaxReference,
}

/// Relies on `SyntaxSet::find_syntax_by_extension`: the grammar registered
/// for a file extension in that set, if any.
#[verifier::external_body]
fn find_syntax_by_extension<'a>(ps: &'a SyntaxSet, ext: &str) -> Option<&'a SyntaxReference> {
    ps.find_syntax_by_extension(ext)
}

/// Relies on `SyntaxSet::find_syntax_by_name`: the grammar of that name in
/// that set, if any.
#[verifier::external_body]
fn find_syntax_by_name<'a>(ps: &'a SyntaxSet, name: &str) -> Option<&'a SyntaxReference> {
    ps.find_syntax_by_name(name)
}

/// The first of two lookups that found something.
pub fn first_found<T>(first: Option<T>, fallback: Option<T>) -> (r: Option<T>)
    ensures
        first is Some ==> r == first,
        first is None ==> r == fallback,
{
    match first {
        Some(x) => Some(x),
        None => fallback,
    }
}

impl<'a> Grammar<'a> {
    /// The syntax set the grammar was found in.
    pub closed spec fn syntax_set(&self) -> SyntaxSet {
        *self.set
    }

    /// The grammar of `set` for a file extension, falling back to the set's
    /// plain-text grammar when the extension is unknown; `None` only when
    /// neither lookup finds one.
    pub fn for_extension(set: &'a SyntaxSet, ext: &str) -> (r: Option<Grammar<'a>>)
        ensures
            r matches Some(g) ==> g.syntax_set() == *set,
    {
        let by_ext = find_syntax_by_extension(set, ext);
        let plain = find_syntax_by_name(set, "Plain Text");
        match first_found(by_ext, plain) {
            Some(syntax) => Some(Grammar { set, syntax }),
            None => None,
        }
    }
}

/// A line tokenizer: syntect's highlighter and the syntax set of its
/// grammar.
pub struct LineTokenizer<'a> {
    lines: HighlightLines<'a>,
    set: &'a SyntaxSet,
}

/// Relies on `syntect::easy::HighlightLines::new`: a tokenizer positioned
/// at the start of a document, for the grammar and theme given; it keeps
/// the grammar's own syntax set for the lines to come.
#[verifier::external_body]
fn line_highlighter<'a>(grammar: &Grammar<'a>, theme: &'a Theme) -> LineTokenizer<'a> {
    LineTokenizer { lines: HighlightLines::new(grammar.syntax, theme), set: grammar.set }
}

/// Relies on `syntect::easy::HighlightLines::highlight_line`, called with
/// the syntax set of the tokenizer's grammar: it styles the next line of the
/// document and moves the tokenizer past it, or reports a parse error.
#[verifier::external_body]
fn highlight_line(t: &mut LineTokenizer, line: &str) -> Result<Vec<(Style, String)>, syntect::Error> {
    t.lines.highlight_line(line, t.set).map(|v| v.into_iter().map(|(style, text)| (style, text.to_string())).collect())
}

/// The colors of a tokenizer style.
pub open spec fn style_of(s: Style) -> TokenStyle {
    TokenStyle {
        foreground: Rgba { r: s.foreground.r, g: s.foreground.g, b: s.foreground.b, a: s.foreground.a },
        background: Rgba { r: s.background.r, g: s.background.g, b: s.background.b, a: s.background.a },
    }
}

/// The colors of a tokenizer style.
pub fn token_style(s: &Style) -> (r: TokenStyle)
    ensures
        r == style_of(*s),
{
    TokenStyle {
        foreground: Rgba { r: s.foreground.r, g: s.foreground.g, b: s.foreground.b, a: s.foreground.a },
        background: Rgba { r: s.background.r, g: s.background.g, b: s.background.b, a: s.background.a },
    }
}

proof fn lemma_runs_len_push(runs: Seq<StyledRun>, x: StyledRun)
    ensures
        runs_len(runs.push(x)) == runs_len(runs) + x.len,
    decreases runs.len(),
{
    if runs.len() == 0 {
        assert(runs.push(x).drop_first() =~= Seq::<StyledRun>::empty());
        assert(runs.push(x)[0] == x);
        assert(runs_len(Seq::<StyledRun>::empty()) == 0);
    } else {
        assert(runs.push(x).drop_first() =~= runs.drop_first().push(x));
        assert(runs.push(x)[0] == runs[0]);
        lemma_runs_len_push(runs.drop_first(), x);
    }
}

/// The run of one token: its style's colors over its characters.
pub open spec fn run_of(token: (Style, String)) -> StyledRun {
    StyledRun { style: style_of(token.0), len: token.1@.len() as usize }
}

/// The runs of one line's tokens, one per token, in order.
pub fn runs_of_tokens(tokens: &Vec<(Style, String)>) -> (r: Vec<StyledRun>)
    ensures
        r@ == tokens@.map_values(|t: (Style, String)| run_of(t)),
{
    let mut r: Vec<StyledRun> = Vec::new();
    let mut k: usize = 0;
    while k < tokens.len()
        invariant
            k <= tokens@.len(),
            r@ == tokens@.take(k as int).map_values(|t: (Style, String)| run_of(t)),
        decreases tokens@.len() - k,
    {
        let piece = chars_of(tokens[k].1.as_str());
        let run = StyledRun { style: token_style(&tokens[k].0), len: piece.len() };
        r.push(run);
        k = k + 1;
        assert(r@ =~= tokens@.take(k as int).map_values(|t: (Style, String)| run_of(t)));
    }
    assert(tokens@.take(k as int) =~= tokens@);
    r
}

/// Sum of the run lengths, or `None` when it does not fit in a `usize`.
fn total_len(runs: &Vec<StyledRun>) -> (r: Option<usize>)
    ensures
        r matches Some(n) ==> n == runs_len(runs@),
        r is None ==> runs_len(runs@) > usize::MAX,
{
    let mut total: usize = 0;
    let mut k: usize = 0;
    assert(runs@.take(0) =~= Seq::<StyledRun>::empty());
    while k < runs.len()
        invariant
            k <= runs@.len(),
            total == runs_len(runs@.take(k as int)),
        decreases runs@.len() - k,
    {
        proof {
            assert(runs@.take(k as int + 1) =~= runs@.take(k as int).push(runs@[k as int]));
            lemma_runs_len_push(runs@.take(k as int), runs@[k as int]);
        }
        if runs[k].len > usize::MAX - total {
            proof {
                lemma_runs_len_prefix(runs@, k as int + 1);
            }
            return None;
        }
        total = total + runs[k].len;
        k = k + 1;
    }
    assert(runs@.take(k as int) =~= runs@);
    Some(total)
}

proof fn lemma_runs_len_prefix(runs: Seq<StyledRun>, k: int)
    requires
        0 <= k <= runs.len(),
    ensures
        runs_len(runs.take(k)) <= runs_len(runs),
    decreases runs.len() - k,
{
    if k < runs.len() {
        assert(runs.take(k + 1) =~= runs.take(k).push(runs[k]));
        lemma_runs_len_push(runs.take(k), runs[k]);
        lemma_runs_len_prefix(runs, k + 1);
    } else {
        assert(runs.take(k) =~= runs);
    }
}

/// Each line's runs, with `None` for a line the tokenizer could not style.
pub open spec fn opt_runs_view(lines: Seq<Option<Vec<StyledRun>>>) -> Seq<Option<Seq<StyledRun>>> {
    lines.map_values(|o: Option<Vec<StyledRun>>| match o {
        Some(v) => Some(v@),
        None => None,
    })
}

/// The runs a pass styles each line with: none on an unstyled line.
pub open spec fn styled_or_empty(lines: Seq<Option<Seq<StyledRun>>>) -> Seq<Seq<StyledRun>> {
    lines.map_values(|o: Option<Seq<StyledRun>>| match o {
        Some(r) => r,
        None => Seq::empty(),
    })
}

/// `lines` styles the lines of `t`: one entry per line; where the
/// tokenizer styled a line, the runs cover it exactly.
pub open spec fn tokenized(t: Seq<char>, lines: Seq<Option<Seq<StyledRun>>>) -> bool {
    exists|ls: Seq<Seq<char>>| {
        &&& #[trigger] is_line_split(t, ls)
        &&& lines.len() == ls.len()
        &&& forall|l: int| 0 <= l < ls.len() ==> (#[trigger] lines[l] matches Some(r) ==> runs_len(r) == ls[l].len())
    }
}

/// The runs of one line from what the tokenizer returned for it: the runs
/// of its tokens when they cover the line exactly, `None` on an error or
/// when they do not.
pub fn line_runs(tokens: Result<Vec<(Style, String)>, syntect::Error>, line_len: usize) -> (r: Option<Vec<StyledRun>>)
    ensures
        r matches Some(runs) ==> runs_len(runs@) == line_len,
        r matches Some(runs) ==> tokens matches Ok(v) && runs@ == v@.map_values(|t: (Style, String)| run_of(t)),
        tokens matches Ok(v) && runs_len(v@.map_values(|t: (Style, String)| run_of(t))) == line_len ==> r is Some,
{
    match tokens {
        Ok(v) => {
            let runs = runs_of_tokens(&v);
            match total_len(&runs) {
                Some(n) => if n == line_len {
                    Some(runs)
                } else {
                    None
                },
                None => None,
            }
        },
        Err(_) => None,
    }
}

/// Runs the tokenizer over every line of `text`, from the first, carrying
/// its state from line to line.
pub fn tokenize_document<'a>(text: &str, grammar: &Grammar<'a>, theme: &'a Theme) -> (r: Vec<Option<Vec<StyledRun>>>)
    ensures
        tokenized(text@, opt_runs_view(r@)),
        runs_fit(styled_or_empty(opt_runs_view(r@))),
{
    let lines = split_lines(text);
    let n_chars = chars_of(text).len();
    let ghost ls = views(lines@);
    let mut h = line_highlighter(grammar, theme);
    let mut out: Vec<Option<Vec<StyledRun>>> = Vec::new();
    let mut l: usize = 0;
    while l < lines.len()
        invariant
            l <= lines@.len(),
            ls == views(lines@),
            is_line_split(text@, ls),
            n_chars == text@.len(),
            out@.len() == l,
            forall|k: int| 0 <= k < l ==> (#[trigger] out@[k] matches Some(v) ==> runs_len(v@) == ls[k].len()),
            forall|k: int| 0 <= k < l ==> (#[trigger] out@[k] matches Some(v) ==> runs_len(v@) <= usize::MAX),
        decreases lines@.len() - l,
    {
        let line_len = chars_of(lines[l].as_str()).len();
        let runs = line_runs(highlight_line(&mut h, lines[l].as_str()), line_len);
        proof {
            assert(ls[l as int] == lines@[l as int]@);
        }
        out.push(runs);
        l = l + 1;
    }
    proof {
        let ov = opt_runs_view(out@);
        assert forall|k: int| 0 <= k < ls.len() implies (#[trigger] ov[k] matches Some(r) ==> runs_len(r) == ls[k].len()) by {
            assert(ov[k] == match out@[k] { Some(v) => Some(v@), None => None::<Seq<StyledRun>> });
        }
        assert(tokenized(text@, ov));
        let sv = styled_or_empty(ov);
        assert forall|k: int| 0 <= k < sv.len() implies runs_len(#[trigger] sv[k]) <= usize::MAX by {
            assert(ov[k] == match out@[k] { Some(v) => Some(v@), None => None::<Seq<StyledRun>> });
            if ov[k] is None {
                assert(sv[k] == Seq::<StyledRun>::empty());
            }
        }
    }
    out
}

fn copy_runs(v: &Vec<StyledRun>) -> (r: Vec<StyledRun>)
    ensures
        r@ == v@,
{
    let mut r: Vec<StyledRun> = Vec::new();
    let mut k: usize = 0;
    while k < v.len()
        invariant
            k <= v@.len(),
            r@ == v@.take(k as int),
        decreases v@.len() - k,
    {
        r.push(v[k]);
        k = k + 1;
        assert(r@ =~= v@.take(k as int));
    }
    assert(v@.take(k as int) =~= v@);
    r
}

/// Each line's runs, with an unstyled line as no runs.
pub fn styled_lines(lines: &Vec<Option<Vec<StyledRun>>>) -> (r: Vec<Vec<StyledRun>>)
    ensures
        runs_view(r@) == styled_or_empty(opt_runs_view(lines@)),
{
    let ghost all = styled_or_empty(opt_runs_view(lines@));
    let mut r: Vec<Vec<StyledRun>> = Vec::new();
    let mut k: usize = 0;
    while k < lines.len()
        invariant
            k <= lines@.len(),
            all == styled_or_empty(opt_runs_view(lines@)),
            r@.len() == k,
            runs_view(r@) == all.take(k as int),
        decreases lines@.len() - k,
    {
        let v = match &lines[k] {
            Some(v) => copy_runs(v),
            None => Vec::new(),
        };
        assert(v@ == all[k as int]);
        let ghost before = r@;
        r.push(v);
        assert(runs_view(r@) =~= runs_view(before).push(v@));
        k = k + 1;
        assert(runs_view(r@) =~= all.take(k as int));
    }
    assert(all.take(k as int) =~= all);
    r
}

/// Lowercase hexadecimal digit of `d < 16`.
pub open spec fn hex_digit(d: int) -> char {
    if d < 10 {
        ((d + 48) as u8) as char
    } else {
        ((d + 87) as u8) as char
    }
}

/// Two hexadecimal digits of a byte.
pub open spec fn hex_byte(b: u8) -> Seq<char> {
    seq![hex_digit(b as int / 16), hex_digit(b as int % 16)]
}

/// Eight hexadecimal digits of a color, in `r g b a` order.
pub open spec fn hex_color(c: Rgba) -> Seq<char> {
    hex_byte(c.r) + hex_byte(c.g) + hex_byte(c.b) + hex_byte(c.a)
}

/// The name of the tag of a style: `fg_` and the foreground's digits, then
/// `_bg_` and the background's. Equal styles give equal names.
pub open spec fn tag_name_of(s: TokenStyle) -> Seq<char> {
    seq!['f', 'g', '_'] + hex_color(s.foreground) + seq!['_', 'b', 'g', '_'] + hex_color(s.background)
}

fn push_hex_byte(out: &mut Vec<char>, b: u8)
    ensures
        final(out)@ == old(out)@ + hex_byte(b),
{
    let hi = b / 16;
    let lo = b % 16;
    let h = if hi < 10 { (hi + 48) as char } else { (hi + 87) as char };
    let l = if lo < 10 { (lo + 48) as char } else { (lo + 87) as char };
    out.push(h);
    out.push(l);
    assert(out@ =~= old(out)@ + hex_byte(b));
}

fn push_hex_color(out: &mut Vec<char>, c: Rgba)
    ensures
        final(out)@ == old(out)@ + hex_color(c),
{
    push_hex_byte(out, c.r);
    push_hex_byte(out, c.g);
    push_hex_byte(out, c.b);
    push_hex_byte(out, c.a);
    assert(out@ =~= old(out)@ + hex_color(c));
}

/// The name of the tag of `s`.
pub fn tag_name(s: TokenStyle) -> (r: String)
    ensures
        r@ == tag_name_of(s),
{
    let mut out: Vec<char> = Vec::new();
    out.push('f');
    out.push('g');
    out.push('_');
    push_hex_color(&mut out, s.foreground);
    out.push('_');
    out.push('b');
    out.push('g');
    out.push('_');
    push_hex_color(&mut out, s.background);
    assert(out@ =~= tag_name_of(s));
    string_of(out.as_slice())
}

/// Applies syntax highlighting to the entire document: tokenizes every line
/// from the start and plans the removal of all style tags and the spans of
/// every styled line.
pub fn apply_syntax_highlighting<'a>(
    text: &str,
    grammar: &Grammar<'a>,
    theme: &'a Theme,
    cache: &mut TagCache,
) -> (r: HighlightPlan)
    requires
        distinct_styles(old(cache)@),
    ensures
        distinct_styles(final(cache)@),
        exists|lines: Seq<Option<Seq<StyledRun>>>| {
            let runs = styled_or_empty(lines);
            &&& #[trigger] tokenized(text@, lines)
            &&& r.start_line == 0
            &&& r.end_line == lines.len()
            &&& final(cache)@ == register_all(old(cache)@, window_spans(runs, 0, lines.len() as int))
            &&& r.spans@ == tagged(window_spans(runs, 0, lines.len() as int), final(cache)@)
        },
{
    let tokens = tokenize_document(text, grammar, theme);
    let ghost lines = opt_runs_view(tokens@);
    let runs = styled_lines(&tokens);
    assert(runs_view(runs@).len() == runs@.len());
    assert(opt_runs_view(tokens@).len() == tokens@.len());
    let r = plan_full(&runs, cache);
    assert(tokenized(text@, lines));
    r
}

/// Lines `start_line ..= end_line` clamped to the `n` lines of a document,
/// as `start .. end`; nothing when no line is left.
pub open spec fn clamped_window(start_line: int, end_line: int, n: int) -> Option<(int, int)> {
    let s = if start_line >= 0 { start_line } else { 0 };
    let e = if end_line <= n - 1 { end_line } else { n - 1 };
    if s <= e {
        Some((s, e + 1))
    } else {
        None
    }
}

/// Re-highlights lines `start_line ..= end_line`, clamped to the document.
/// The tokenizer still runs from the first line so that constructs spanning
/// lines are styled right, but only the window's tags are replaced.
pub fn apply_incremental_syntax_highlighting<'a>(
    text: &str,
    grammar: &Grammar<'a>,
    theme: &'a Theme,
    start_line: i32,
    end_line: i32,
    cache: &mut TagCache,
) -> (r: Option<HighlightPlan>)
    requires
        distinct_styles(old(cache)@),
    ensures
        distinct_styles(final(cache)@),
        exists|lines: Seq<Option<Seq<StyledRun>>>| {
            let runs = styled_or_empty(lines);
            &&& #[trigger] tokenized(text@, lines)
            &&& match clamped_window(start_line as int, end_line as int, lines.len() as int) {
                None => r is None && final(cache)@ == old(cache)@,
                Some((s, e)) => r matches Some(p) && {
                    &&& p.start_line == s
                    &&& p.end_line == e
                    &&& final(cache)@ == register_all(old(cache)@, window_spans(runs, s, e))
                    &&& p.spans@ == tagged(window_spans(runs, s, e), final(cache)@)
                },
            }
        },
{
    let tokens = tokenize_document(text, grammar, theme);
    let ghost lines = opt_runs_view(tokens@);
    let runs = styled_lines(&tokens);
    assert(runs_view(runs@).len() == runs@.len());
    assert(opt_runs_view(tokens@).len() == tokens@.len());
    assert(tokenized(text@, lines));
    let n = runs.len();
    let s: usize = if start_line >= 0 { start_line as usize } else { 0 };
    if n == 0 || end_line < 0 || s > n - 1 || s > end_line as usize {
        return None;
    }
    let e: usize = if (end_line as usize) <= n - 1 { end_line as usize } else { n - 1 };
    let spans = plan_window(&runs, s, e + 1, cache);
    Some(HighlightPlan { start_line: s, end_line: e + 1, spans })
}

/// Re-highlights after a burst of edits: the dirty lines, padded by the
/// context lines and clamped to the document. Nothing is planned when no
/// line is dirty.
pub fn apply_incremental_highlighting<'a>(
    text: &str,
    grammar: &Grammar<'a>,
    theme: &'a Theme,
    changed_lines: &HashSet<i32>,
    cache: &mut TagCache,
) -> (r: Option<HighlightPlan>)
    requires
        distinct_styles(old(cache)@),
    ensures
        distinct_styles(final(cache)@),
        r is None <==> changed_lines@.is_empty(),
        r is None ==> final(cache)@ == old(cache)@,
        r matches Some(p) ==> exists|lines: Seq<Option<Seq<StyledRun>>>| {
            let runs = styled_or_empty(lines);
            &&& #[trigger] tokenized(text@, lines)
            &&& dirty_window(changed_lines@, lines.len() as int, (p.start_line as int, p.end_line as int))
            &&& final(cache)@ == register_all(old(cache)@, window_spans(runs, p.start_line as int, p.end_line as int))
            &&& p.spans@ == tagged(window_spans(runs, p.start_line as int, p.end_line as int), final(cache)@)
        },
{
    if changed_lines.is_empty() {
        return None;
    }
    let tokens = tokenize_document(text, grammar, theme);
    let ghost lines = opt_runs_view(tokens@);
    let runs = styled_lines(&tokens);
    assert(runs_view(runs@).len() == runs@.len());
    assert(opt_runs_view(tokens@).len() == tokens@.len());
    let r = plan_incremental(&runs, changed_lines, cache);
    assert(tokenized(text@, lines));
    r
}

} // verus!
