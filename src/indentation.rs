//! Indentation: guessing whether a document indents with tabs or spaces,
//! and the edits that indent or outdent a range of lines.

use vstd::prelude::*;
use crate::text::{TextEdit, concat_lines, is_line_split, split_lines, string_of, views};

verus! {

/// How many leading lines are examined when guessing the style.
pub const SAMPLE_LINES: usize = 20;

/// Space indentation width assumed when the sample shows none.
pub const DEFAULT_INDENT_WIDTH: usize = 4;

/// Unicode `White_Space`: the characters `char::is_whitespace` accepts.
pub open spec fn whitespace(c: char) -> bool {
    let v = c as u32;
    ||| 0x09 <= v <= 0x0D
    ||| v == 0x20
    ||| v == 0x85
    ||| v == 0xA0
    ||| v == 0x1680
    ||| 0x2000 <= v <= 0x200A
    ||| v == 0x2028
    ||| v == 0x2029
    ||| v == 0x202F
    ||| v == 0x205F
    ||| v == 0x3000
}

/// Whether `c` is Unicode white space.
pub fn is_whitespace(c: char) -> (r: bool)
    ensures
        r == whitespace(c),
{
    let v = c as u32;
    (0x09 <= v && v <= 0x0D) || v == 0x20 || v == 0x85 || v == 0xA0 || v == 0x1680 || (0x2000 <= v
        && v <= 0x200A) || v == 0x2028 || v == 0x2029 || v == 0x202F || v == 0x205F || v == 0x3000
}

/// A line holding nothing but whitespace.
pub open spec fn blank(l: Seq<char>) -> bool {
    forall|i: int| 0 <= i < l.len() ==> whitespace(#[trigger] l[i])
}

/// Number of spaces that begin `l`.
pub open spec fn leading_spaces(l: Seq<char>) -> nat
    decreases l.len(),
{
    if l.len() > 0 && l[0] == ' ' {
        1 + leading_spaces(l.drop_first())
    } else {
        0
    }
}

/// A non-blank line indented with a tab.
pub open spec fn tab_led(l: Seq<char>) -> bool {
    !blank(l) && l.len() > 0 && l[0] == '\t'
}

/// A non-blank line indented with spaces.
pub open spec fn space_led(l: Seq<char>) -> bool {
    !blank(l) && l.len() > 0 && l[0] == ' '
}

/// Number of tab-indented lines.
pub open spec fn tab_count(ls: Seq<Seq<char>>) -> nat
    decreases ls.len(),
{
    if ls.len() == 0 {
        0
    } else {
        tab_count(ls.drop_last()) + if tab_led(ls.last()) { 1nat } else { 0nat }
    }
}

/// The widths of the space-indented lines, in order.
pub open spec fn space_widths(ls: Seq<Seq<char>>) -> Seq<nat>
    decreases ls.len(),
{
    if ls.len() == 0 {
        Seq::empty()
    } else if space_led(ls.last()) {
        space_widths(ls.drop_last()).push(leading_spaces(ls.last()))
    } else {
        space_widths(ls.drop_last())
    }
}

/// How often `w` appears in `ws`.
pub open spec fn occurrences(ws: Seq<nat>, w: nat) -> nat
    decreases ws.len(),
{
    if ws.len() == 0 {
        0
    } else {
        occurrences(ws.drop_last(), w) + if ws.last() == w { 1nat } else { 0nat }
    }
}

/// The lines examined when guessing the style.
pub open spec fn sample(ls: Seq<Seq<char>>) -> Seq<Seq<char>> {
    if ls.len() < SAMPLE_LINES {
        ls
    } else {
        ls.take(SAMPLE_LINES as int)
    }
}

/// `ws[i]` is the most frequent width, the earliest one on a tie.
pub open spec fn is_mode_at(ws: Seq<nat>, i: int) -> bool {
    &&& 0 <= i < ws.len()
    &&& forall|j: int| 0 <= j < ws.len() ==> occurrences(ws, #[trigger] ws[j]) <= occurrences(ws, ws[i])
    &&& forall|j: int| 0 <= j < i ==> occurrences(ws, #[trigger] ws[j]) < occurrences(ws, ws[i])
}

fn line_is_blank(l: &Vec<char>) -> (r: bool)
    ensures
        r == blank(l@),
{
    let mut i: usize = 0;
    while i < l.len()
        invariant
            i <= l@.len(),
            forall|k: int| 0 <= k < i ==> whitespace(#[trigger] l@[k]),
        decreases l@.len() - i,
    {
        if !is_whitespace(l[i]) {
            return false;
        }
        i = i + 1;
    }
    true
}

fn count_leading_spaces(l: &Vec<char>) -> (r: usize)
    ensures
        r == leading_spaces(l@),
{
    let mut i: usize = 0;
    assert(l@.skip(0) =~= l@);
    while i < l.len() && l[i] == ' '
        invariant
            i <= l@.len(),
            forall|k: int| 0 <= k < i ==> l@[k] == ' ',
            leading_spaces(l@) == i + leading_spaces(l@.skip(i as int)),
        decreases l@.len() - i,
    {
        assert(l@.skip(i as int).drop_first() =~= l@.skip(i as int + 1));
        i = i + 1;
    }
    assert(leading_spaces(l@.skip(i as int)) == 0);
    i
}

fn count_in(ws: &Vec<usize>, w: usize) -> (r: usize)
    ensures
        r == occurrences(ws@.map_values(|x: usize| x as nat), w as nat),
{
    let ghost wn = ws@.map_values(|x: usize| x as nat);
    let mut c: usize = 0;
    let mut i: usize = 0;
    while i < ws.len()
        invariant
            i <= ws@.len(),
            wn == ws@.map_values(|x: usize| x as nat),
            c == occurrences(wn.take(i as int), w as nat),
            c <= i,
        decreases ws@.len() - i,
    {
        assert(wn.take(i as int + 1).drop_last() =~= wn.take(i as int));
        if ws[i] == w {
            c = c + 1;
        }
        i = i + 1;
    }
    assert(wn.take(i as int) =~= wn);
    c
}

/// The indentation style a document seems to use, from its first lines:
/// `(true, 0)` for tabs when more lines start with a tab than with spaces,
/// otherwise `(false, width)` with the most frequent leading-space width
/// (the earliest on a tie), or the default width when no line starts with
/// spaces. Blank lines do not count.
pub fn detect_indent_style(text: &str) -> (r: (bool, usize))
    ensures
        exists|ls: Seq<Seq<char>>| {
            let ws = space_widths(sample(ls));
            &&& #[trigger] is_line_split(text@, ls)
            &&& tab_count(sample(ls)) > ws.len() ==> r == (true, 0usize)
            &&& tab_count(sample(ls)) <= ws.len() && ws.len() == 0 ==> r == (false, DEFAULT_INDENT_WIDTH)
            &&& tab_count(sample(ls)) <= ws.len() && ws.len() > 0 ==> !r.0 && exists|i: int| #[trigger] is_mode_at(ws, i) && ws[i] == r.1
        },
{
    let lines = split_lines(text);
    let ghost ls = views(lines@);
    let n = if lines.len() < SAMPLE_LINES { lines.len() } else { SAMPLE_LINES };
    let ghost smp = ls.take(n as int);
    assert(smp == sample(ls)) by {
        if ls.len() < SAMPLE_LINES {
            assert(ls.take(n as int) =~= ls);
        }
    }
    let mut tabs: usize = 0;
    let mut widths: Vec<usize> = Vec::new();
    let mut l: usize = 0;
    while l < n
        invariant
            l <= n <= lines@.len(),
            ls == views(lines@),
            smp == ls.take(n as int),
            tabs == tab_count(smp.take(l as int)),
            tabs <= l,
            widths@.map_values(|x: usize| x as nat) == space_widths(smp.take(l as int)),
        decreases n - l,
    {
        let line = crate::text::chars_of(lines[l].as_str());
        assert(smp.take(l as int + 1).drop_last() =~= smp.take(l as int));
        assert(smp.take(l as int + 1).last() == line@);
        let is_blank = line_is_blank(&line);
        if !is_blank && line.len() > 0 && line[0] == '\t' {
            tabs = tabs + 1;
        } else if !is_blank && line.len() > 0 && line[0] == ' ' {
            let w = count_leading_spaces(&line);
            widths.push(w);
            assert(widths@.map_values(|x: usize| x as nat) =~= space_widths(smp.take(l as int)).push(leading_spaces(line@)));
        }
        l = l + 1;
    }
    assert(smp.take(n as int) =~= smp);
    let ghost ws = widths@.map_values(|x: usize| x as nat);
    assert(is_line_split(text@, ls));
    if tabs > widths.len() {
        return (true, 0);
    }
    if widths.len() == 0 {
        return (false, DEFAULT_INDENT_WIDTH);
    }
    let mut best: usize = 0;
    let mut best_count: usize = count_in(&widths, widths[0]);
    let mut i: usize = 1;
    while i < widths.len()
        invariant
            1 <= i <= widths@.len(),
            ws == widths@.map_values(|x: usize| x as nat),
            best < i,
            best_count == occurrences(ws, ws[best as int]),
            forall|j: int| 0 <= j < i ==> occurrences(ws, #[trigger] ws[j]) <= best_count,
            forall|j: int| 0 <= j < best ==> occurrences(ws, #[trigger] ws[j]) < best_count,
        decreases widths@.len() - i,
    {
        let c = count_in(&widths, widths[i]);
        if c > best_count {
            best = i;
            best_count = c;
        }
        i = i + 1;
    }
    assert(is_mode_at(ws, best as int));
    (false, widths[best])
}

/// Character offset at which line `k` starts.
pub open spec fn line_start(ls: Seq<Seq<char>>, k: int) -> int {
    concat_lines(ls.take(k)).len() as int
}

proof fn lemma_line_start_step(ls: Seq<Seq<char>>, k: int)
    requires
        0 <= k < ls.len(),
    ensures
        line_start(ls, k + 1) == line_start(ls, k) + ls[k].len(),
{
    assert(ls.take(k + 1).drop_last() =~= ls.take(k));
    assert(ls.take(k + 1).last() == ls[k]);
}

/// Start offsets of every line, and the lines themselves.
fn line_starts(text: &str) -> (r: (Vec<usize>, Vec<Vec<char>>))
    ensures
        exists|ls: Seq<Seq<char>>| {
            &&& #[trigger] is_line_split(text@, ls)
            &&& r.1@.len() == ls.len()
            &&& r.0@.len() == ls.len()
            &&& forall|k: int| 0 <= k < ls.len() ==> (#[trigger] r.1@[k])@ == ls[k]
            &&& forall|k: int| 0 <= k < ls.len() ==> #[trigger] r.0@[k] == line_start(ls, k)
        },
        text@.len() <= usize::MAX,
{
    let lines = split_lines(text);
    let total = crate::text::chars_of(text).len();
    let ghost ls = views(lines@);
    let mut starts: Vec<usize> = Vec::new();
    let mut chars: Vec<Vec<char>> = Vec::new();
    let mut acc: usize = 0;
    let mut k: usize = 0;
    assert(ls.take(0) =~= Seq::<Seq<char>>::empty());
    while k < lines.len()
        invariant
            k <= lines@.len(),
            ls == views(lines@),
            is_line_split(text@, ls),
            total == text@.len(),
            acc == line_start(ls, k as int),
            starts@.len() == k,
            chars@.len() == k,
            forall|j: int| 0 <= j < k ==> (#[trigger] chars@[j])@ == ls[j],
            forall|j: int| 0 <= j < k ==> #[trigger] starts@[j] == line_start(ls, j),
        decreases lines@.len() - k,
    {
        let line = crate::text::chars_of(lines[k].as_str());
        proof {
            lemma_line_start_step(ls, k as int);
            lemma_concat_take_len(ls, k as int + 1);
        }
        starts.push(acc);
        acc = acc + line.len();
        chars.push(line);
        k = k + 1;
    }
    (starts, chars)
}

proof fn lemma_concat_take_len(ls: Seq<Seq<char>>, k: int)
    requires
        0 <= k <= ls.len(),
    ensures
        concat_lines(ls.take(k)).len() <= concat_lines(ls).len(),
    decreases ls.len() - k,
{
    if k < ls.len() {
        lemma_concat_take_len(ls, k + 1);
        lemma_line_start_step(ls, k);
    } else {
        assert(ls.take(k) =~= ls);
    }
}

proof fn lemma_leading_within(l: Seq<char>)
    ensures
        leading_spaces(l) <= l.len(),
    decreases l.len(),
{
    if l.len() > 0 && l[0] == ' ' {
        lemma_leading_within(l.drop_first());
    }
}

proof fn lemma_outdent_within(l: Seq<char>, is_tab: bool, width: nat)
    ensures
        outdent_len(l, is_tab, width) <= l.len(),
{
    lemma_leading_within(l);
}

/// The indentation unit: one tab, or `width` spaces.
pub open spec fn indent_unit(is_tab: bool, width: nat) -> Seq<char> {
    if is_tab {
        seq!['\t']
    } else {
        Seq::new(width, |_i: int| ' ')
    }
}

fn make_indent(is_tab: bool, width: usize) -> (r: Vec<char>)
    ensures
        r@ == indent_unit(is_tab, width as nat),
{
    let mut r: Vec<char> = Vec::new();
    if is_tab {
        r.push('\t');
        assert(r@ =~= indent_unit(is_tab, width as nat));
        return r;
    }
    let mut i: usize = 0;
    while i < width
        invariant
            i <= width,
            r@ == Seq::new(i as nat, |_i: int| ' '),
        decreases width - i,
    {
        r.push(' ');
        i = i + 1;
        assert(r@ =~= Seq::new(i as nat, |_i: int| ' '));
    }
    r
}

/// The last line of `start_line ..= end_line` that the document has.
pub open spec fn last_line_in(end_line: int, n: int) -> int {
    if end_line < n - 1 {
        end_line
    } else {
        n - 1
    }
}

/// The edits that indent lines `start_line ..= end_line` (those the
/// document has) by one unit, from the bottom line up: each inserts the
/// unit at the start of its line.
pub fn indent_selection(text: &str, start_line: usize, end_line: usize, is_tab: bool, width: usize) -> (r: Vec<TextEdit>)
    ensures
        exists|ls: Seq<Seq<char>>| {
            let hi = last_line_in(end_line as int, ls.len() as int);
            &&& #[trigger] is_line_split(text@, ls)
            &&& r@.len() == if start_line <= hi { hi - start_line + 1 } else { 0 }
            &&& forall|j: int| 0 <= j < r@.len() ==> {
                &&& (#[trigger] r@[j]).start == line_start(ls, hi - j)
                &&& r@[j].end == r@[j].start
                &&& r@[j].text@ == indent_unit(is_tab, width as nat)
            }
        },
{
    let (starts, lines) = line_starts(text);
    let ghost ls = choose|ls: Seq<Seq<char>>| {
        &&& is_line_split(text@, ls)
        &&& lines@.len() == ls.len()
        &&& starts@.len() == ls.len()
        &&& forall|k: int| 0 <= k < ls.len() ==> (#[trigger] lines@[k])@ == ls[k]
        &&& forall|k: int| 0 <= k < ls.len() ==> #[trigger] starts@[k] == line_start(ls, k)
    };
    let unit = make_indent(is_tab, width);
    let mut edits: Vec<TextEdit> = Vec::new();
    let n = starts.len();
    let hi = if end_line < n - 1 { end_line } else { n - 1 };
    if start_line > hi {
        return edits;
    }
    let mut l: usize = hi + 1;
    while l > start_line
        invariant
            start_line <= l <= hi + 1,
            hi < n == starts@.len(),
            starts@.len() == ls.len(),
            forall|k: int| 0 <= k < ls.len() ==> #[trigger] starts@[k] == line_start(ls, k),
            unit@ == indent_unit(is_tab, width as nat),
            edits@.len() == hi + 1 - l,
            forall|j: int| 0 <= j < edits@.len() ==> {
                &&& (#[trigger] edits@[j]).start == starts@[hi - j]
                &&& edits@[j].end == edits@[j].start
                &&& edits@[j].text@ == indent_unit(is_tab, width as nat)
            },
        decreases l,
    {
        l = l - 1;
        let ins = string_of(unit.as_slice());
        assert(ins@ == unit@);
        let ghost before = edits@;
        edits.push(TextEdit { start: starts[l], end: starts[l], text: ins });
        assert forall|j: int| 0 <= j < edits@.len() implies {
            &&& (#[trigger] edits@[j]).start == starts@[hi - j]
            &&& edits@[j].end == edits@[j].start
            &&& edits@[j].text@ == indent_unit(is_tab, width as nat)
        } by {
            if j < before.len() {
                assert(edits@[j] == before[j]);
            } else {
                assert(j == hi - l);
                assert(edits@[j].start == starts@[l as int]);
                assert(edits@[j].text@ == unit@);
            }
        }
    }
    assert(is_line_split(text@, ls));
    edits
}

/// How many characters outdenting removes from a line: the unit when the
/// line starts with it, else, with spaces, its leading spaces up to the
/// width.
pub open spec fn outdent_len(l: Seq<char>, is_tab: bool, width: nat) -> nat {
    if is_tab {
        if l.len() > 0 && l[0] == '\t' { 1 } else { 0 }
    } else if leading_spaces(l) < width {
        leading_spaces(l)
    } else {
        width
    }
}

/// The outdent edits for lines `lo ..= hi`, as `(start, end)` ranges of
/// characters to delete, from the bottom line up: one for each line with
/// something to remove.
pub open spec fn outdent_plan(ls: Seq<Seq<char>>, lo: int, hi: int, is_tab: bool, width: nat) -> Seq<(int, int)>
    decreases hi + 1 - lo,
{
    if lo > hi {
        Seq::empty()
    } else {
        let rest = outdent_plan(ls, lo + 1, hi, is_tab, width);
        let n = outdent_len(ls[lo], is_tab, width);
        if n > 0 {
            rest.push((line_start(ls, lo), line_start(ls, lo) + n))
        } else {
            rest
        }
    }
}

/// The edits that outdent lines `start_line ..= end_line` (those the
/// document has) by at most one unit, from the bottom line up: each line
/// with something to remove gets one edit deleting it, and only those.
pub fn outdent_selection(text: &str, start_line: usize, end_line: usize, is_tab: bool, width: usize) -> (r: Vec<TextEdit>)
    ensures
        exists|ls: Seq<Seq<char>>| {
            let hi = last_line_in(end_line as int, ls.len() as int);
            let plan = outdent_plan(ls, start_line as int, hi, is_tab, width as nat);
            &&& #[trigger] is_line_split(text@, ls)
            &&& r@.len() == plan.len()
            &&& forall|j: int|
                0 <= j < r@.len() ==> {
                    &&& (#[trigger] r@[j]).start == plan[j].0
                    &&& r@[j].end == plan[j].1
                    &&& r@[j].text@.len() == 0
                }
        },
{
    let (starts, lines) = line_starts(text);
    let mut edits: Vec<TextEdit> = Vec::new();
    let n = starts.len();
    let ghost ls = choose|ls: Seq<Seq<char>>| {
        &&& is_line_split(text@, ls)
        &&& lines@.len() == ls.len()
        &&& starts@.len() == ls.len()
        &&& forall|k: int| 0 <= k < ls.len() ==> (#[trigger] lines@[k])@ == ls[k]
        &&& forall|k: int| 0 <= k < ls.len() ==> #[trigger] starts@[k] == line_start(ls, k)
    };
    let hi = if end_line < n - 1 { end_line } else { n - 1 };
    if start_line > hi {
        assert(outdent_plan(ls, start_line as int, hi as int, is_tab, width as nat) =~= Seq::<(int, int)>::empty());
        return edits;
    }
    let mut l: usize = hi + 1;
    while l > start_line
        invariant
            start_line <= l <= hi + 1,
            hi < n == starts@.len(),
            is_line_split(text@, ls),
            lines@.len() == ls.len() == n,
            forall|k: int| 0 <= k < ls.len() ==> (#[trigger] lines@[k])@ == ls[k],
            forall|k: int| 0 <= k < ls.len() ==> #[trigger] starts@[k] == line_start(ls, k),
            edits@.len() == outdent_plan(ls, l as int, hi as int, is_tab, width as nat).len(),
            forall|j: int|
                0 <= j < edits@.len() ==> {
                    &&& (#[trigger] edits@[j]).start == outdent_plan(ls, l as int, hi as int, is_tab, width as nat)[j].0
                    &&& edits@[j].end == outdent_plan(ls, l as int, hi as int, is_tab, width as nat)[j].1
                    &&& edits@[j].text@.len() == 0
                },
            text@.len() <= usize::MAX,
        decreases l,
    {
        l = l - 1;
        let line = &lines[l];
        let count = if is_tab {
            if line.len() > 0 && line[0] == '\t' { 1 } else { 0 }
        } else {
            let lead = count_leading_spaces(line);
            if lead < width { lead } else { width }
        };
        proof {
            lemma_line_start_step(ls, l as int);
            lemma_concat_take_len(ls, l as int + 1);
            assert(lines@[l as int]@ == ls[l as int]);
            assert(count == outdent_len(ls[l as int], is_tab, width as nat));
            lemma_outdent_within(ls[l as int], is_tab, width as nat);
        }
        let ghost before = edits@;
        if count > 0 {
            let start = starts[l];
            edits.push(TextEdit { start, end: start + count, text: String::new() });
            assert forall|j: int| 0 <= j < before.len() implies edits@[j] == before[j] by {}
        }
    }
    assert(is_line_split(text@, ls));
    edits
}

} // verus!
