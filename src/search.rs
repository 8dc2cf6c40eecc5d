//! Search and replace over a document's text: plain substring, whole word
//! and regular expression matching, each case-sensitive or not, forward or
//! backward with one wrap-around, and batch replacement applied from the
//! highest offset down.
//!
//! Positions are character offsets into the document.

use vstd::prelude::*;
use crate::pattern::{
    CompiledPattern, byte_matches_ordered, char_at_byte, char_match, char_span, compile_regex,
    effective_pattern, lemma_char_at_byte_prefix, regex_all_matches, regex_compiles, regex_error_message,
    regex_find_at, regex_find_iter, regex_first_from, regex_first_replaced, regex_replace,
};
use crate::text::{
    TextEdit, apply_edits, byte_len, byte_offsets, char_boundary, chars_of, edited, lemma_byte_len_prefix, slice_chars,
    splice_chars, string_of,
};

verus! {

broadcast use vstd::string::group_string_axioms;

/// A match of a query: the characters `start .. end` of the document.
#[derive(Clone, Copy, Debug, PartialEq, Eq, Structural)]
pub struct SearchMatch {
    pub start: usize,
    pub end: usize,
}

/// The characters that `char::to_lowercase` yields for `c`.
pub uninterp spec fn lowercase_of(c: char) -> Seq<char>;

/// Whether `char::is_alphanumeric` holds of `c`.
pub uninterp spec fn alphanumeric(c: char) -> bool;

/// Relies on `char::to_lowercase`: the lowercase mapping of one character,
/// which depends on that character alone.
#[verifier::external_body]
fn lowercase(c: char) -> (r: String)
    ensures
        r@ == lowercase_of(c),
{
    c.to_lowercase().collect()
}

/// Relies on `char::is_alphanumeric`: Unicode `Alphabetic` or `Numeric`.
#[verifier::external_body]
fn is_alphanumeric(c: char) -> (r: bool)
    ensures
        r == alphanumeric(c),
{
    c.is_alphanumeric()
}

/// Two characters match when equal, or, ignoring case, when their
/// lowercase mappings are equal.
pub open spec fn chars_match(a: char, b: char, match_case: bool) -> bool {
    a == b || (!match_case && lowercase_of(a) == lowercase_of(b))
}

/// A character that belongs to a word.
pub open spec fn is_word_char(c: char) -> bool {
    alphanumeric(c) || c == '_'
}

/// Position `i` begins a word: a word character not preceded by one.
pub open spec fn starts_word(t: Seq<char>, i: int) -> bool {
    0 <= i < t.len() && is_word_char(t[i]) && (i == 0 || !is_word_char(t[i - 1]))
}

/// Position `j` ends a word: it follows a word character and is not
/// followed by one.
pub open spec fn ends_word(t: Seq<char>, j: int) -> bool {
    0 < j <= t.len() && is_word_char(t[j - 1]) && (j == t.len() || !is_word_char(t[j]))
}

/// The non-empty pattern `p` occurs in `t` at position `i`.
pub open spec fn occurs_at(t: Seq<char>, p: Seq<char>, i: int, match_case: bool) -> bool {
    &&& p.len() > 0
    &&& 0 <= i
    &&& i + p.len() <= t.len()
    &&& forall|k: int| 0 <= k < p.len() ==> chars_match(#[trigger] t[i + k], p[k], match_case)
}

/// No word character sits just before position `i`.
pub open spec fn clear_before(t: Seq<char>, i: int) -> bool {
    i == 0 || !is_word_char(t[i - 1])
}

/// No word character sits at position `j`, just after a match ending there.
pub open spec fn clear_after(t: Seq<char>, j: int) -> bool {
    j == t.len() || !is_word_char(t[j])
}

/// An occurrence at `i` that the search accepts: with `whole_word`, no word
/// character may touch it from outside, on either side.
pub open spec fn accepted_at(
    t: Seq<char>,
    p: Seq<char>,
    i: int,
    match_case: bool,
    whole_word: bool,
) -> bool {
    occurs_at(t, p, i, match_case) && (whole_word ==> clear_before(t, i) && clear_after(
        t,
        i + p.len(),
    ))
}

/// The first accepted position at or after `i`.
pub open spec fn first_from(
    t: Seq<char>,
    p: Seq<char>,
    match_case: bool,
    whole_word: bool,
    i: int,
) -> Option<int>
    decreases t.len() - i,
{
    if p.len() == 0 || i < 0 || i + p.len() > t.len() {
        None
    } else if accepted_at(t, p, i, match_case, whole_word) {
        Some(i)
    } else {
        first_from(t, p, match_case, whole_word, i + 1)
    }
}

/// The last accepted position at or before `i`.
pub open spec fn last_until(
    t: Seq<char>,
    p: Seq<char>,
    match_case: bool,
    whole_word: bool,
    i: int,
) -> Option<int>
    decreases i + 1,
{
    if i < 0 {
        None
    } else if accepted_at(t, p, i, match_case, whole_word) {
        Some(i)
    } else {
        last_until(t, p, match_case, whole_word, i - 1)
    }
}

/// Where a forward search begins: one character after the cursor, so that
/// the current selection is not found again, and never past the end.
pub open spec fn forward_start(len: int, cursor: int) -> int {
    if cursor < len {
        cursor + 1
    } else {
        len
    }
}

/// The position a forward search finds: the first accepted one after the
/// cursor, else, wrapping once, the first in the document.
pub open spec fn next_position(
    t: Seq<char>,
    p: Seq<char>,
    match_case: bool,
    whole_word: bool,
    cursor: int,
) -> Option<int> {
    match first_from(t, p, match_case, whole_word, forward_start(t.len() as int, cursor)) {
        Some(i) => Some(i),
        None => first_from(t, p, match_case, whole_word, 0),
    }
}

/// The position a backward search finds: the last accepted one that ends at
/// or before the cursor, else, wrapping once, the last in the document.
pub open spec fn previous_position(
    t: Seq<char>,
    p: Seq<char>,
    match_case: bool,
    whole_word: bool,
    cursor: int,
) -> Option<int> {
    let bound = if cursor < t.len() {
        cursor
    } else {
        t.len() as int
    };
    match last_until(t, p, match_case, whole_word, bound - p.len()) {
        Some(i) => Some(i),
        None => last_until(t, p, match_case, whole_word, t.len() - p.len()),
    }
}

/// The match that covers `p.len()` characters from position `i`.
pub open spec fn match_at(i: Option<int>, len: nat) -> Option<SearchMatch> {
    match i {
        Some(i) => Some(SearchMatch { start: i as usize, end: (i + len) as usize }),
        None => None,
    }
}

/// Whether two characters match under the case setting.
pub fn char_matches(a: char, b: char, match_case: bool) -> (r: bool)
    ensures
        r == chars_match(a, b, match_case),
{
    if a == b {
        true
    } else if match_case {
        false
    } else {
        lowercase(a) == lowercase(b)
    }
}

/// Whether `c` belongs to a word.
pub fn word_char(c: char) -> (r: bool)
    ensures
        r == is_word_char(c),
{
    c == '_' || is_alphanumeric(c)
}

/// Whether `p` occurs in `t` at `i`.
fn occurs(t: &Vec<char>, p: &Vec<char>, i: usize, match_case: bool) -> (r: bool)
    ensures
        r == occurs_at(t@, p@, i as int, match_case),
{
    if p.len() == 0 || i > t.len() || p.len() > t.len() - i {
        return false;
    }
    let n = t.len();
    let mut k: usize = 0;
    while k < p.len()
        invariant
            n == t@.len(),
            k <= p@.len(),
            i + p@.len() <= t@.len(),
            forall|m: int| 0 <= m < k ==> chars_match(#[trigger] t@[i + m], p@[m], match_case),
        decreases p@.len() - k,
    {
        if !char_matches(t[i + k], p[k], match_case) {
            return false;
        }
        k = k + 1;
    }
    true
}

/// Whether position `i` begins a word of `t`.
fn at_word_start(t: &Vec<char>, i: usize) -> (r: bool)
    ensures
        r == starts_word(t@, i as int),
{
    if i >= t.len() || !word_char(t[i]) {
        return false;
    }
    i == 0 || !word_char(t[i - 1])
}

/// Whether position `j` ends a word of `t`.
fn at_word_end(t: &Vec<char>, j: usize) -> (r: bool)
    ensures
        r == ends_word(t@, j as int),
{
    if j == 0 || j > t.len() || !word_char(t[j - 1]) {
        return false;
    }
    j == t.len() || !word_char(t[j])
}

/// Whether the search accepts an occurrence at `i`.
fn accepted(t: &Vec<char>, p: &Vec<char>, i: usize, match_case: bool, whole_word: bool) -> (r:
    bool)
    ensures
        r == accepted_at(t@, p@, i as int, match_case, whole_word),
        t@.len() <= usize::MAX,
{
    let n = t.len();
    if !occurs(t, p, i, match_case) {
        return false;
    }
    assert(i + p@.len() <= n);
    !whole_word || ((i == 0 || !word_char(t[i - 1])) && (i + p.len() == n || !word_char(t[i + p.len()])))
}

/// The first accepted position at or after `from`; a rejected candidate
/// moves the scan on by one character.
fn scan_forward(t: &Vec<char>, p: &Vec<char>, from: usize, match_case: bool, whole_word: bool) -> (r:
    Option<usize>)
    ensures
        r == (match first_from(t@, p@, match_case, whole_word, from as int) {
            Some(i) => Some(i as usize),
            None => None::<usize>,
        }),
        r matches Some(i) ==> i + p@.len() <= t@.len() <= usize::MAX,
{
    if p.len() == 0 || from > t.len() || p.len() > t.len() - from {
        return None;
    }
    let n = t.len();
    let last = n - p.len();
    let mut i: usize = from;
    while i <= last
        invariant
            n == t@.len(),
            from <= i <= last + 1,
            last == t@.len() - p@.len(),
            p@.len() > 0,
            first_from(t@, p@, match_case, whole_word, from as int) == first_from(
                t@,
                p@,
                match_case,
                whole_word,
                i as int,
            ),
        decreases last + 1 - i,
    {
        if accepted(t, p, i, match_case, whole_word) {
            return Some(i);
        }
        i = i + 1;
    }
    None
}

/// The last accepted position at or before `upto`.
fn scan_backward(t: &Vec<char>, p: &Vec<char>, upto: usize, match_case: bool, whole_word: bool) -> (r:
    Option<usize>)
    ensures
        r == (match last_until(t@, p@, match_case, whole_word, upto as int) {
            Some(i) => Some(i as usize),
            None => None::<usize>,
        }),
        r matches Some(i) ==> i + p@.len() <= t@.len() <= usize::MAX,
{
    let mut i: usize = upto;
    loop
        invariant
            i <= upto,
            last_until(t@, p@, match_case, whole_word, upto as int) == last_until(
                t@,
                p@,
                match_case,
                whole_word,
                i as int,
            ),
        decreases i,
    {
        if accepted(t, p, i, match_case, whole_word) {
            return Some(i);
        }
        if i == 0 {
            assert(last_until(t@, p@, match_case, whole_word, -1) == None::<int>);
            return None;
        }
        i = i - 1;
    }
}

/// Why a query could not run.
#[derive(Clone, Debug, PartialEq, Eq)]
pub enum SearchError {
    /// The regular expression does not compile; the text says why.
    InvalidPattern(String),
}

/// Searches for `p` (or, with `whole_word`, for it as a whole word) from
/// position `from` forward.
fn search_text_in_buffer(
    t: &Vec<char>,
    p: &Vec<char>,
    from: usize,
    match_case: bool,
    whole_word: bool,
) -> (r: Option<SearchMatch>)
    ensures
        r == match_at(first_from(t@, p@, match_case, whole_word, from as int), p@.len()),
        r matches Some(m) ==> m.start <= m.end <= t@.len(),
{
    proof {
        lemma_first_from_bounds(t@, p@, match_case, whole_word, from as int);
    }
    match scan_forward(t, p, from, match_case, whole_word) {
        Some(i) => Some(SearchMatch { start: i, end: i + p.len() }),
        None => None,
    }
}

/// Searches backward for an occurrence that ends at or before `bound`.
fn search_text_in_buffer_backward(
    t: &Vec<char>,
    p: &Vec<char>,
    bound: usize,
    match_case: bool,
    whole_word: bool,
) -> (r: Option<SearchMatch>)
    ensures
        r == match_at(
            last_until(t@, p@, match_case, whole_word, bound - p@.len()),
            p@.len(),
        ),
        r matches Some(m) ==> m.start <= m.end <= t@.len(),
{
    proof {
        lemma_last_until_bounds(t@, p@, match_case, whole_word, bound - p@.len());
    }
    if bound < p.len() {
        assert(last_until(t@, p@, match_case, whole_word, bound - p@.len()) == None::<int>);
        return None;
    }
    match scan_backward(t, p, bound - p.len(), match_case, whole_word) {
        Some(i) => Some(SearchMatch { start: i, end: i + p.len() }),
        None => None,
    }
}

/// Finds the next literal occurrence after the cursor, wrapping once to the
/// start of the document.
fn find_next_literal(t: &Vec<char>, p: &Vec<char>, cursor: usize, match_case: bool, whole_word: bool) -> (r:
    Option<SearchMatch>)
    ensures
        r == match_at(next_position(t@, p@, match_case, whole_word, cursor as int), p@.len()),
        r matches Some(m) ==> m.start <= m.end <= t@.len(),
{
    let from = if cursor < t.len() {
        cursor + 1
    } else {
        t.len()
    };
    match search_text_in_buffer(t, p, from, match_case, whole_word) {
        Some(m) => Some(m),
        None => search_text_in_buffer(t, p, 0, match_case, whole_word),
    }
}

/// Finds the previous literal occurrence ending at or before the cursor,
/// wrapping once to the end of the document.
fn find_previous_literal(
    t: &Vec<char>,
    p: &Vec<char>,
    cursor: usize,
    match_case: bool,
    whole_word: bool,
) -> (r: Option<SearchMatch>)
    ensures
        r == match_at(previous_position(t@, p@, match_case, whole_word, cursor as int), p@.len()),
        r matches Some(m) ==> m.start <= m.end <= t@.len(),
{
    let bound = if cursor < t.len() {
        cursor
    } else {
        t.len()
    };
    match search_text_in_buffer_backward(t, p, bound, match_case, whole_word) {
        Some(m) => Some(m),
        None => search_text_in_buffer_backward(t, p, t.len(), match_case, whole_word),
    }
}

/// Compiles the query, mapping a failure to [`SearchError`].
fn compile_for_search(pattern: &str, match_case: bool) -> (r: Result<CompiledPattern, SearchError>)
    ensures
        r is Ok <==> regex_compiles(effective_pattern(pattern@, match_case)),
        r matches Ok(c) ==> c.pattern() == effective_pattern(pattern@, match_case),
{
    match compile_regex(pattern, match_case) {
        Ok(c) => Ok(c),
        Err(e) => Err(SearchError::InvalidPattern(regex_error_message(&e))),
    }
}

/// The match a forward regex search reports: the first one the engine finds
/// from the character after the cursor, else, wrapping once, from the start.
pub open spec fn regex_next(p: Seq<char>, t: Seq<char>, cursor: int) -> Option<SearchMatch> {
    let from = forward_start(t.len() as int, cursor);
    match regex_first_from(p, t, byte_len(t.take(from)) as usize) {
        Some(bm) => Some(char_match(t, bm)),
        None => match regex_first_from(p, t, 0) {
            Some(bm) => Some(char_match(t, bm)),
            None => None,
        },
    }
}

/// The match a backward regex search reports: the last of the engine's
/// matches in the text before the cursor, else, wrapping once, the last in
/// the whole text.
pub open spec fn regex_previous(p: Seq<char>, t: Seq<char>, cursor: int) -> Option<SearchMatch> {
    let bound = if cursor < t.len() { cursor } else { t.len() as int };
    let before = regex_all_matches(p, t.take(bound));
    let all = regex_all_matches(p, t);
    if before.len() > 0 {
        Some(char_match(t, before.last()))
    } else if all.len() > 0 {
        Some(char_match(t, all.last()))
    } else {
        None
    }
}

/// Finds the next regex match after the cursor, wrapping once.
fn find_next_regex(text: &str, pattern: &str, cursor: usize, match_case: bool) -> (r: Result<
    Option<SearchMatch>,
    SearchError,
>)
    ensures
        r is Err <==> !regex_compiles(effective_pattern(pattern@, match_case)),
        r is Ok ==> r == Ok::<Option<SearchMatch>, SearchError>(
            regex_next(effective_pattern(pattern@, match_case), text@, cursor as int),
        ),
        r matches Ok(Some(m)) ==> m.start <= m.end <= text@.len(),
{
    let re = match compile_for_search(pattern, match_case) {
        Ok(re) => re,
        Err(e) => return Err(e),
    };
    let t = chars_of(text);
    let total = text.as_bytes().len();
    let offsets = byte_offsets(&t, total);
    let from = if cursor < t.len() {
        cursor + 1
    } else {
        t.len()
    };
    proof {
        lemma_byte_len_prefix(t@, from as int);
    }
    let found = match regex_find_at(&re, text, offsets[from]) {
        Some(m) => Some(m),
        None => regex_find_at(&re, text, 0),
    };
    match found {
        Some((b, e)) => Ok(Some(char_span(&offsets, b, e, Ghost(t@)))),
        None => Ok(None),
    }
}

/// The last of the byte matches `ms` over the prefix of `t` of `n`
/// characters, as character positions.
fn last_byte_match(
    offsets: &Vec<usize>,
    ms: &Vec<(usize, usize)>,
    Ghost(t): Ghost<Seq<char>>,
    Ghost(n): Ghost<int>,
) -> (r: Option<SearchMatch>)
    requires
        offsets@.len() == t.len() + 1,
        forall|k: int| 0 <= k <= t.len() ==> #[trigger] offsets@[k] == byte_len(t.take(k)),
        0 <= n <= t.len(),
        byte_matches_ordered(t.take(n), ms@),
    ensures
        r is Some <==> ms@.len() > 0,
        r matches Some(m) ==> m == char_match(t, ms@.last()) && m == char_match(t.take(n), ms@.last())
            && m.start <= m.end <= n,
{
    if ms.len() == 0 {
        return None;
    }
    let (b, e) = ms[ms.len() - 1];
    proof {
        assert(ms@.last() == ms@[ms@.len() - 1]);
        lemma_char_at_byte_prefix(t, n, b as int);
        lemma_char_at_byte_prefix(t, n, e as int);
    }
    let m = char_span(offsets, b, e, Ghost(t));
    Some(m)
}

/// Finds the last regex match ending at or before the cursor, wrapping once
/// to the last match in the document.
fn find_previous_regex(text: &str, pattern: &str, cursor: usize, match_case: bool) -> (r: Result<
    Option<SearchMatch>,
    SearchError,
>)
    ensures
        r is Err <==> !regex_compiles(effective_pattern(pattern@, match_case)),
        r is Ok ==> r == Ok::<Option<SearchMatch>, SearchError>(
            regex_previous(effective_pattern(pattern@, match_case), text@, cursor as int),
        ),
        r matches Ok(Some(m)) ==> m.start <= m.end <= text@.len(),
{
    let re = match compile_for_search(pattern, match_case) {
        Ok(re) => re,
        Err(e) => return Err(e),
    };
    let t = chars_of(text);
    let total = text.as_bytes().len();
    let offsets = byte_offsets(&t, total);
    let bound = if cursor < t.len() {
        cursor
    } else {
        t.len()
    };
    let before = text.substring_char(0, bound);
    let ms = regex_find_iter(&re, before);
    assert(before@ =~= t@.take(bound as int));
    if let Some(m) = last_byte_match(&offsets, &ms, Ghost(t@), Ghost(bound as int)) {
        return Ok(Some(m));
    }
    let all = regex_find_iter(&re, text);
    assert(text@ =~= t@.take(t@.len() as int));
    Ok(last_byte_match(&offsets, &all, Ghost(t@), Ghost(t@.len() as int)))
}

/// Finds the next occurrence of `search_text` after `cursor`, wrapping once
/// to the start of the document. In regex mode `whole_word` is not used.
pub fn find_next_advanced(
    text: &str,
    cursor: usize,
    search_text: &str,
    match_case: bool,
    whole_word: bool,
    use_regex: bool,
) -> (r: Result<Option<SearchMatch>, SearchError>)
    ensures
        !use_regex ==> r == Ok::<Option<SearchMatch>, SearchError>(
            match_at(
                next_position(text@, search_text@, match_case, whole_word, cursor as int),
                search_text@.len(),
            ),
        ),
        use_regex ==> (r is Err <==> !regex_compiles(effective_pattern(search_text@, match_case))),
        use_regex && r is Ok ==> r == Ok::<Option<SearchMatch>, SearchError>(
            regex_next(effective_pattern(search_text@, match_case), text@, cursor as int),
        ),
        r matches Ok(Some(m)) ==> m.start <= m.end <= text@.len(),
{
    if use_regex {
        find_next_regex(text, search_text, cursor, match_case)
    } else {
        let t = chars_of(text);
        let p = chars_of(search_text);
        let r = find_next_literal(&t, &p, cursor, match_case, whole_word);
        Ok(r)
    }
}

/// Finds the previous occurrence of `search_text` ending at or before
/// `cursor`, wrapping once to the end of the document. In regex mode
/// `whole_word` is not used.
pub fn find_previous_advanced(
    text: &str,
    cursor: usize,
    search_text: &str,
    match_case: bool,
    whole_word: bool,
    use_regex: bool,
) -> (r: Result<Option<SearchMatch>, SearchError>)
    ensures
        !use_regex ==> r == Ok::<Option<SearchMatch>, SearchError>(
            match_at(
                previous_position(text@, search_text@, match_case, whole_word, cursor as int),
                search_text@.len(),
            ),
        ),
        use_regex ==> (r is Err <==> !regex_compiles(effective_pattern(search_text@, match_case))),
        use_regex && r is Ok ==> r == Ok::<Option<SearchMatch>, SearchError>(
            regex_previous(effective_pattern(search_text@, match_case), text@, cursor as int),
        ),
        r matches Ok(Some(m)) ==> m.start <= m.end <= text@.len(),
{
    if use_regex {
        find_previous_regex(text, search_text, cursor, match_case)
    } else {
        let t = chars_of(text);
        let p = chars_of(search_text);
        let r = find_previous_literal(&t, &p, cursor, match_case, whole_word);
        Ok(r)
    }
}

/// A position found by a forward scan is an accepted occurrence.
pub proof fn lemma_first_from_bounds(
    t: Seq<char>,
    p: Seq<char>,
    match_case: bool,
    whole_word: bool,
    i: int,
)
    ensures
        first_from(t, p, match_case, whole_word, i) matches Some(j) ==> i <= j && accepted_at(
            t,
            p,
            j,
            match_case,
            whole_word,
        ),
    decreases t.len() - i,
{
    if p.len() == 0 || i < 0 || i + p.len() > t.len() {
    } else if accepted_at(t, p, i, match_case, whole_word) {
    } else {
        lemma_first_from_bounds(t, p, match_case, whole_word, i + 1);
    }
}

/// A position found by a backward scan is an accepted occurrence.
pub proof fn lemma_last_until_bounds(
    t: Seq<char>,
    p: Seq<char>,
    match_case: bool,
    whole_word: bool,
    i: int,
)
    ensures
        last_until(t, p, match_case, whole_word, i) matches Some(j) ==> j <= i && accepted_at(
            t,
            p,
            j,
            match_case,
            whole_word,
        ),
    decreases i + 1,
{
    if i < 0 {
    } else if accepted_at(t, p, i, match_case, whole_word) {
    } else {
        lemma_last_until_bounds(t, p, match_case, whole_word, i - 1);
    }
}

/// Matches that lie within a text of `len` characters, in order and
/// without overlap.
pub open spec fn ordered_matches(ms: Seq<SearchMatch>, len: int) -> bool {
    &&& forall|k: int| 0 <= k < ms.len() ==> (#[trigger] ms[k]).start <= ms[k].end <= len
    &&& forall|k: int| 0 <= k < ms.len() - 1 ==> (#[trigger] ms[k]).end <= ms[k + 1].start
}

/// The text from position `from` on, where match `k` and every later one
/// is replaced by its replacement text.
pub open spec fn splice_from(
    t: Seq<char>,
    ms: Seq<SearchMatch>,
    reps: Seq<Seq<char>>,
    from: int,
    k: int,
) -> Seq<char>
    decreases ms.len() - k,
{
    if k < 0 || k >= ms.len() {
        t.subrange(from, t.len() as int)
    } else {
        t.subrange(from, ms[k].start as int) + reps[k] + splice_from(t, ms, reps, ms[k].end as int, k + 1)
    }
}

/// `t` with every match replaced by its replacement text: the unmatched
/// stretches of `t` kept in order, each match's characters swapped for
/// `reps[k]`.
pub open spec fn spliced(t: Seq<char>, ms: Seq<SearchMatch>, reps: Seq<Seq<char>>) -> Seq<char> {
    splice_from(t, ms, reps, 0, 0)
}

/// The edits that replace the matches one by one from the last to the
/// first: edit `j` replaces match `ms.len() - 1 - j`.
pub open spec fn reverse_edits(ms: Seq<SearchMatch>, reps: Seq<Seq<char>>, es: Seq<TextEdit>) -> bool {
    &&& es.len() == ms.len()
    &&& forall|j: int|
        0 <= j < es.len() ==> {
            let k = ms.len() - 1 - j;
            &&& (#[trigger] es[j]).start == ms[k].start
            &&& es[j].end == ms[k].end
            &&& es[j].text@ == reps[k]
        }
}

/// Where the untouched prefix ends once the matches from `k` on are
/// replaced.
pub open spec fn prefix_end(t: Seq<char>, ms: Seq<SearchMatch>, k: int) -> int {
    if k < ms.len() {
        ms[k].start as int
    } else {
        t.len() as int
    }
}

proof fn lemma_splice_shift(
    t: Seq<char>,
    ms: Seq<SearchMatch>,
    reps: Seq<Seq<char>>,
    from: int,
    k: int,
)
    requires
        ordered_matches(ms, t.len() as int),
        0 <= k <= ms.len(),
        0 <= from <= prefix_end(t, ms, k),
    ensures
        splice_from(t, ms, reps, from, k) == t.subrange(from, prefix_end(t, ms, k)) + splice_from(
            t,
            ms,
            reps,
            prefix_end(t, ms, k),
            k,
        ),
{
    if k == ms.len() {
        assert(t.subrange(t.len() as int, t.len() as int) =~= Seq::<char>::empty());
        assert(t.subrange(from, t.len() as int) + Seq::<char>::empty() =~= t.subrange(from, t.len() as int));
    } else {
        let s = ms[k].start as int;
        let rest = splice_from(t, ms, reps, ms[k].end as int, k + 1);
        assert(t.subrange(s, s) =~= Seq::<char>::empty());
        assert(splice_from(t, ms, reps, s, k) == t.subrange(s, s) + reps[k] + rest);
        assert(t.subrange(s, s) + reps[k] + rest =~= reps[k] + rest);
        assert(t.subrange(from, s) + reps[k] + rest =~= t.subrange(from, s) + (reps[k] + rest));
    }
}

/// Replacing pre-collected matches one at a time from the highest offset
/// down yields the text in which every match is replaced: each edit leaves
/// the positions of the matches before it valid, so the order of the scan
/// that found them has no bearing on the result.
pub proof fn lemma_reverse_application_splices(
    t: Seq<char>,
    ms: Seq<SearchMatch>,
    reps: Seq<Seq<char>>,
    es: Seq<TextEdit>,
)
    requires
        ordered_matches(ms, t.len() as int),
        reps.len() == ms.len(),
        reverse_edits(ms, reps, es),
    ensures
        apply_edits(t, es) == spliced(t, ms, reps),
{
    lemma_reverse_suffix(t, ms, reps, es, ms.len() as int);
    let n = ms.len() as int;
    assert(splice_from(t, ms, reps, t.len() as int, n) == t.subrange(t.len() as int, t.len() as int));
    assert(t.subrange(0, prefix_end(t, ms, n)) + splice_from(t, ms, reps, prefix_end(t, ms, n), n) =~= t);
    assert(es.skip(0) =~= es);
    lemma_splice_shift(t, ms, reps, 0, 0);
    if ms.len() > 0 {
        assert(t.subrange(0, ms[0].start as int) + splice_from(t, ms, reps, ms[0].start as int, 0)
            == splice_from(t, ms, reps, 0, 0));
    } else {
        assert(t.subrange(0, t.len() as int) =~= t);
        assert(t.subrange(0, t.len() as int) + splice_from(t, ms, reps, t.len() as int, 0) == spliced(t, ms, reps));
    }
}

/// After the edits for matches `k ..` (the first `ms.len() - k` edits), the
/// text is the untouched prefix followed by the spliced rest; applying the
/// remaining edits finishes the splice.
proof fn lemma_reverse_suffix(
    t: Seq<char>,
    ms: Seq<SearchMatch>,
    reps: Seq<Seq<char>>,
    es: Seq<TextEdit>,
    k: int,
)
    requires
        ordered_matches(ms, t.len() as int),
        reps.len() == ms.len(),
        reverse_edits(ms, reps, es),
        0 <= k <= ms.len(),
    ensures
        apply_edits(
            t.subrange(0, prefix_end(t, ms, k)) + splice_from(t, ms, reps, prefix_end(t, ms, k), k),
            es.skip(ms.len() - k),
        ) == t.subrange(0, prefix_end(t, ms, 0)) + splice_from(t, ms, reps, prefix_end(t, ms, 0), 0),
    decreases k,
{
    if k == 0 {
        assert(es.skip(ms.len() as int) =~= Seq::<TextEdit>::empty());
    } else {
        let cur = t.subrange(0, prefix_end(t, ms, k)) + splice_from(t, ms, reps, prefix_end(t, ms, k), k);
        let j = ms.len() - k;
        let e = es[j];
        assert(e.start == ms[k - 1].start && e.end == ms[k - 1].end && e.text@ == reps[k - 1]);
        let s = ms[k - 1].start as int;
        let en = ms[k - 1].end as int;
        let p = prefix_end(t, ms, k);
        assert(en <= p);
        let next = edited(cur, s, en, reps[k - 1]);
        lemma_splice_shift(t, ms, reps, en, k);
        assert(cur.take(s) =~= t.subrange(0, s));
        assert(cur.skip(en) =~= t.subrange(en, p) + splice_from(t, ms, reps, p, k));
        assert(next =~= t.subrange(0, prefix_end(t, ms, k - 1)) + splice_from(t, ms, reps, prefix_end(t, ms, k - 1), k - 1));
        assert(es.skip(j).drop_first() =~= es.skip(ms.len() - (k - 1)));
        assert(es.skip(j)[0] == e);
        lemma_reverse_suffix(t, ms, reps, es, k - 1);
    }
}

/// Replaces `ms[k]` by `reps[k]` for every `k`, from the last match to the
/// first; returns the new text and the edits in the order they were made.
fn apply_in_reverse(t: &Vec<char>, ms: &Vec<SearchMatch>, reps: &Vec<Vec<char>>) -> (r: (
    Vec<char>,
    Vec<TextEdit>,
))
    requires
        ordered_matches(ms@, t@.len() as int),
        reps@.len() == ms@.len(),
    ensures
        reverse_edits(ms@, reps@.map_values(|v: Vec<char>| v@), r.1@),
        r.0@ == apply_edits(t@, r.1@),
        r.0@ == spliced(t@, ms@, reps@.map_values(|v: Vec<char>| v@)),
{
    let ghost rs = reps@.map_values(|v: Vec<char>| v@);
    let mut cur = slice_chars(t, 0, t.len());
    let mut edits: Vec<TextEdit> = Vec::new();
    let n = ms.len();
    let mut k: usize = n;
    assert(t@.subrange(0, t@.len() as int) =~= t@);
    proof {
        assert(splice_from(t@, ms@, rs, t@.len() as int, n as int) == t@.subrange(t@.len() as int, t@.len() as int));
        assert(t@.subrange(t@.len() as int, t@.len() as int) =~= Seq::<char>::empty());
        assert(cur@ =~= t@.subrange(0, prefix_end(t@, ms@, n as int)) + splice_from(t@, ms@, rs, prefix_end(t@, ms@, n as int), n as int));
    }
    while k > 0
        invariant
            k <= n,
            n == ms@.len(),
            reps@.len() == n,
            rs == reps@.map_values(|v: Vec<char>| v@),
            ordered_matches(ms@, t@.len() as int),
            cur@ == t@.subrange(0, prefix_end(t@, ms@, k as int)) + splice_from(t@, ms@, rs, prefix_end(t@, ms@, k as int), k as int),
            edits@.len() == n - k,
            forall|j: int|
                0 <= j < edits@.len() ==> {
                    let i = n - 1 - j;
                    &&& (#[trigger] edits@[j]).start == ms@[i].start
                    &&& edits@[j].end == ms@[i].end
                    &&& edits@[j].text@ == rs[i]
                },
        decreases k,
    {
        k = k - 1;
        let m = ms[k];
        let ghost p = prefix_end(t@, ms@, k as int + 1);
        proof {
            lemma_splice_shift(t@, ms@, rs, m.end as int, k as int + 1);
            assert(m.end <= p);
        }
        let ghost old_cur = cur@;
        cur = splice_chars(&cur, m.start, m.end, &reps[k]);
        proof {
            assert(old_cur.take(m.start as int) =~= t@.subrange(0, m.start as int));
            assert(old_cur.skip(m.end as int) =~= t@.subrange(m.end as int, p) + splice_from(t@, ms@, rs, p, k as int + 1));
            assert(rs[k as int] == reps@[k as int]@);
            assert(cur@ =~= t@.subrange(0, prefix_end(t@, ms@, k as int)) + splice_from(
                t@,
                ms@,
                rs,
                prefix_end(t@, ms@, k as int),
                k as int,
            ));
        }
        edits.push(TextEdit { start: m.start, end: m.end, text: string_of(reps[k].as_slice()) });
    }
    proof {
        assert(reverse_edits(ms@, rs, edits@));
        lemma_reverse_application_splices(t@, ms@, rs, edits@);
        lemma_splice_shift(t@, ms@, rs, 0, 0);
        if n > 0 {
            assert(t@.subrange(0, 0) =~= Seq::<char>::empty());
        }
        assert(t@.subrange(0, prefix_end(t@, ms@, 0)) + splice_from(t@, ms@, rs, prefix_end(t@, ms@, 0), 0) == spliced(t@, ms@, rs));
    }
    (cur, edits)
}

/// Starts of the occurrences a replace-all scan collects from position `i`:
/// the first accepted one, then on from its end.
pub open spec fn starts_from(t: Seq<char>, p: Seq<char>, match_case: bool, whole_word: bool, i: int) -> Seq<int>
    decreases t.len() - i,
{
    match first_from(t, p, match_case, whole_word, i) {
        Some(j) => if i <= j && p.len() > 0 && j + p.len() <= t.len() {
            seq![j] + starts_from(t, p, match_case, whole_word, j + p.len())
        } else {
            Seq::empty()
        },
        None => Seq::empty(),
    }
}

/// The matches of `len` characters at the given starts.
pub open spec fn matches_at(starts: Seq<int>, len: nat) -> Seq<SearchMatch> {
    starts.map_values(|j: int| SearchMatch { start: j as usize, end: (j + len) as usize })
}

/// Every occurrence a replace-all collects: non-overlapping, scanning from
/// the start of the document.
pub open spec fn literal_matches(t: Seq<char>, p: Seq<char>, match_case: bool, whole_word: bool) -> Seq<SearchMatch> {
    matches_at(starts_from(t, p, match_case, whole_word, 0), p.len())
}

/// `n` copies of `s`.
pub open spec fn copies(s: Seq<char>, n: nat) -> Seq<Seq<char>> {
    Seq::new(n, |_i: int| s)
}

/// Edits that run from the highest offset down and do not overlap.
pub open spec fn edits_descending(es: Seq<TextEdit>, len: int) -> bool {
    &&& forall|j: int| 0 <= j < es.len() ==> (#[trigger] es[j]).start <= es[j].end <= len
    &&& forall|j: int| 0 <= j < es.len() - 1 ==> (#[trigger] es[j + 1]).end <= es[j].start
}

proof fn lemma_reverse_edits_descending(ms: Seq<SearchMatch>, reps: Seq<Seq<char>>, es: Seq<TextEdit>, len: int)
    requires
        ordered_matches(ms, len),
        reverse_edits(ms, reps, es),
    ensures
        edits_descending(es, len),
{
    assert forall|j: int| 0 <= j < es.len() - 1 implies (#[trigger] es[j + 1]).end <= es[j].start by {
        let k = ms.len() - 1 - j;
        assert(ms[k - 1].end <= ms[k].start);
    }
}

/// Collects every accepted occurrence, resuming after each one found.
fn collect_literal_matches(t: &Vec<char>, p: &Vec<char>, match_case: bool, whole_word: bool) -> (r: Vec<SearchMatch>)
    ensures
        r@ == literal_matches(t@, p@, match_case, whole_word),
        ordered_matches(r@, t@.len() as int),
{
    let mut out: Vec<SearchMatch> = Vec::new();
    let mut i: usize = 0;
    let n = t.len();
    let plen = p.len();
    loop
        invariant
            n == t@.len(),
            plen == p@.len(),
            i <= n,
            literal_matches(t@, p@, match_case, whole_word) == out@ + matches_at(
                starts_from(t@, p@, match_case, whole_word, i as int),
                p@.len(),
            ),
            forall|k: int| 0 <= k < out@.len() ==> (#[trigger] out@[k]).start <= out@[k].end <= i,
            forall|k: int| 0 <= k < out@.len() - 1 ==> (#[trigger] out@[k]).end <= out@[k + 1].start,
        decreases n - i,
    {
        proof {
            lemma_first_from_bounds(t@, p@, match_case, whole_word, i as int);
        }
        match scan_forward(t, p, i, match_case, whole_word) {
            Some(j) => {
                let m = SearchMatch { start: j, end: j + plen };
                let ghost rest = starts_from(t@, p@, match_case, whole_word, (j + plen) as int);
                assert(starts_from(t@, p@, match_case, whole_word, i as int) == seq![j as int] + rest);
                assert(matches_at(seq![j as int] + rest, p@.len()) =~= seq![m] + matches_at(rest, p@.len()));
                assert(out@ + (seq![m] + matches_at(rest, p@.len())) =~= out@.push(m) + matches_at(rest, p@.len()));
                out.push(m);
                i = j + plen;
            },
            None => {
                assert(matches_at(Seq::<int>::empty(), p@.len()) =~= Seq::<SearchMatch>::empty());
                assert(out@ + Seq::<SearchMatch>::empty() =~= out@);
                return out;
            },
        }
    }
}

/// `n` copies of `rep`.
fn repeat_chars(rep: &Vec<char>, n: usize) -> (r: Vec<Vec<char>>)
    ensures
        r@.map_values(|v: Vec<char>| v@) == copies(rep@, n as nat),
{
    let mut r: Vec<Vec<char>> = Vec::new();
    let mut i: usize = 0;
    while i < n
        invariant
            i <= n,
            r@.len() == i,
            forall|k: int| 0 <= k < i ==> (#[trigger] r@[k])@ == rep@,
        decreases n - i,
    {
        r.push(slice_chars(rep, 0, rep.len()));
        assert(rep@.subrange(0, rep@.len() as int) =~= rep@);
        i = i + 1;
    }
    assert(r@.map_values(|v: Vec<char>| v@) =~= copies(rep@, n as nat));
    r
}

/// The result of a replace-all: the new text, how many matches were
/// replaced, and the edits made, in the order they were made.
pub struct ReplaceAll {
    pub text: String,
    pub count: usize,
    pub edits: Vec<TextEdit>,
}

/// Replaces every literal (or whole-word) occurrence, last one first.
fn replace_all_literal(t: &Vec<char>, p: &Vec<char>, rep: &Vec<char>, match_case: bool, whole_word: bool) -> (r: (
    Vec<char>,
    Vec<TextEdit>,
))
    ensures
        ({
            let ms = literal_matches(t@, p@, match_case, whole_word);
            &&& reverse_edits(ms, copies(rep@, ms.len()), r.1@)
            &&& r.0@ == spliced(t@, ms, copies(rep@, ms.len()))
            &&& r.0@ == apply_edits(t@, r.1@)
            &&& edits_descending(r.1@, t@.len() as int)
        }),
{
    let ms = collect_literal_matches(t, p, match_case, whole_word);
    let reps = repeat_chars(rep, ms.len());
    let ghost rs = copies(rep@, ms@.len());
    assert(reps@.map_values(|v: Vec<char>| v@) == rs);
    let r = apply_in_reverse(t, &ms, &reps);
    proof {
        lemma_reverse_edits_descending(ms@, rs, r.1@, t@.len() as int);
    }
    r
}

/// Byte matches of `t` as character positions.
pub open spec fn byte_spans_as_chars(t: Seq<char>, bms: Seq<(usize, usize)>) -> Seq<SearchMatch> {
    bms.map_values(|bm: (usize, usize)| char_match(t, bm))
}

/// The engine's matches over `t`, as character positions.
pub open spec fn regex_char_matches(p: Seq<char>, t: Seq<char>) -> Seq<SearchMatch> {
    byte_spans_as_chars(t, regex_all_matches(p, t))
}

/// What each match is replaced by: the engine's replacement of the matched
/// text on its own.
pub open spec fn regex_replacements(p: Seq<char>, t: Seq<char>, rep: Seq<char>) -> Seq<Seq<char>> {
    regex_char_matches(p, t).map_values(
        |m: SearchMatch| regex_first_replaced(p, t.subrange(m.start as int, m.end as int), rep),
    )
}

/// Byte positions in order turn into character positions in order.
proof fn lemma_char_matches_ordered(t: Seq<char>, bms: Seq<(usize, usize)>)
    requires
        byte_matches_ordered(t, bms),
        t.len() <= usize::MAX,
    ensures
        ordered_matches(byte_spans_as_chars(t, bms), t.len() as int),
{
    let ms = byte_spans_as_chars(t, bms);
    assert forall|k: int| 0 <= k < ms.len() implies (#[trigger] ms[k]).start <= ms[k].end <= t.len() by {
        assert(ms[k] == char_match(t, bms[k]));
        lemma_char_at_byte_bounds(t, bms[k].0 as int);
        lemma_char_at_byte_bounds(t, bms[k].1 as int);
        lemma_char_at_byte_monotone(t, bms[k].0 as int, bms[k].1 as int);
    }
    assert forall|k: int| 0 <= k < ms.len() - 1 implies (#[trigger] ms[k]).end <= ms[k + 1].start by {
        assert(ms[k] == char_match(t, bms[k]));
        assert(ms[k + 1] == char_match(t, bms[k + 1]));
        lemma_char_at_byte_bounds(t, bms[k].1 as int);
        lemma_char_at_byte_bounds(t, bms[k + 1].0 as int);
        lemma_char_at_byte_monotone(t, bms[k].1 as int, bms[k + 1].0 as int);
    }
}

proof fn lemma_char_at_byte_bounds(t: Seq<char>, b: int)
    requires
        char_boundary(t, b),
    ensures
        0 <= char_at_byte(t, b) <= t.len(),
        byte_len(t.take(char_at_byte(t, b))) == b,
{
}

proof fn lemma_char_at_byte_monotone(t: Seq<char>, a: int, b: int)
    requires
        char_boundary(t, a),
        char_boundary(t, b),
        a <= b,
    ensures
        char_at_byte(t, a) <= char_at_byte(t, b),
{
    let i = char_at_byte(t, a);
    let j = char_at_byte(t, b);
    if j < i {
        crate::pattern::lemma_byte_len_strict(t, j, i);
    }
}

/// Replaces the given byte matches of `text` by the given texts, last match
/// first: the step that follows a regex scan.
pub fn splice_byte_matches(text: &str, matches: &Vec<(usize, usize)>, replacements: &Vec<String>) -> (r: ReplaceAll)
    requires
        byte_matches_ordered(text@, matches@),
        replacements@.len() == matches@.len(),
    ensures
        ({
            let ms = byte_spans_as_chars(text@, matches@);
            let reps = crate::text::views(replacements@);
            &&& r.count == ms.len()
            &&& r.text@ == spliced(text@, ms, reps)
            &&& reverse_edits(ms, reps, r.edits@)
            &&& r.text@ == apply_edits(text@, r.edits@)
            &&& edits_descending(r.edits@, text@.len() as int)
        }),
{
    let t = chars_of(text);
    let total = text.as_bytes().len();
    let offsets = byte_offsets(&t, total);
    let mut ms: Vec<SearchMatch> = Vec::new();
    let mut reps: Vec<Vec<char>> = Vec::new();
    let mut k: usize = 0;
    while k < matches.len()
        invariant
            k <= matches@.len(),
            t@ == text@,
            byte_matches_ordered(text@, matches@),
            replacements@.len() == matches@.len(),
            offsets@.len() == t@.len() + 1,
            forall|i: int| 0 <= i <= t@.len() ==> #[trigger] offsets@[i] == byte_len(t@.take(i)),
            ms@ == byte_spans_as_chars(text@, matches@).take(k as int),
            reps@.map_values(|v: Vec<char>| v@) == crate::text::views(replacements@).take(k as int),
        decreases matches@.len() - k,
    {
        let (b, e) = matches[k];
        let m = char_span(&offsets, b, e, Ghost(t@));
        let rep = chars_of(replacements[k].as_str());
        assert(crate::text::views(replacements@)[k as int] == replacements@[k as int]@);
        let ghost before = reps@;
        ms.push(m);
        reps.push(rep);
        assert(reps@.map_values(|v: Vec<char>| v@) =~= before.map_values(|v: Vec<char>| v@).push(rep@));
        assert(crate::text::views(replacements@).take(k as int + 1) =~= crate::text::views(replacements@).take(k as int).push(rep@));
        k = k + 1;
        assert(ms@ =~= byte_spans_as_chars(text@, matches@).take(k as int));
        assert(reps@.map_values(|v: Vec<char>| v@) =~= crate::text::views(replacements@).take(k as int));
    }
    let ghost cms = byte_spans_as_chars(text@, matches@);
    let ghost rs = crate::text::views(replacements@);
    assert(cms.take(k as int) =~= cms);
    assert(rs.take(k as int) =~= rs);
    proof {
        crate::text::lemma_chars_within_bytes(t@, t@.len() as int);
        assert(t@.take(t@.len() as int) =~= t@);
        lemma_char_matches_ordered(text@, matches@);
    }
    let (chars, edits) = apply_in_reverse(&t, &ms, &reps);
    proof {
        lemma_reverse_edits_descending(cms, rs, edits@, t@.len() as int);
    }
    let count = edits.len();
    ReplaceAll { text: string_of(chars.as_slice()), count, edits }
}

/// Collects every regex match, replaces each by the regex's own
/// replacement of its matched text, last one first.
fn replace_all_regex(text: &str, pattern: &str, replacement_text: &str, match_case: bool) -> (r: Result<
    ReplaceAll,
    SearchError,
>)
    ensures
        r is Err <==> !regex_compiles(effective_pattern(pattern@, match_case)),
        r matches Ok(o) ==> ({
            let p = effective_pattern(pattern@, match_case);
            let ms = regex_char_matches(p, text@);
            let reps = regex_replacements(p, text@, replacement_text@);
            &&& o.count == ms.len()
            &&& o.text@ == spliced(text@, ms, reps)
            &&& reverse_edits(ms, reps, o.edits@)
            &&& o.text@ == apply_edits(text@, o.edits@)
            &&& edits_descending(o.edits@, text@.len() as int)
        }),
{
    let re = match compile_for_search(pattern, match_case) {
        Ok(re) => re,
        Err(e) => return Err(e),
    };
    let ghost p = effective_pattern(pattern@, match_case);
    let t = chars_of(text);
    let total = text.as_bytes().len();
    let offsets = byte_offsets(&t, total);
    let bms = regex_find_iter(&re, text);
    let ghost cms = byte_spans_as_chars(text@, bms@);
    let mut reps: Vec<String> = Vec::new();
    let mut k: usize = 0;
    while k < bms.len()
        invariant
            k <= bms@.len(),
            t@ == text@,
            re.pattern() == p,
            bms@ == regex_all_matches(p, text@),
            cms == byte_spans_as_chars(text@, bms@),
            byte_matches_ordered(text@, bms@),
            offsets@.len() == t@.len() + 1,
            forall|i: int| 0 <= i <= t@.len() ==> #[trigger] offsets@[i] == byte_len(t@.take(i)),
            reps@.len() == k,
            forall|i: int|
                0 <= i < k ==> (#[trigger] reps@[i])@ == regex_first_replaced(
                    p,
                    text@.subrange(cms[i].start as int, cms[i].end as int),
                    replacement_text@,
                ),
        decreases bms@.len() - k,
    {
        let (b, e) = bms[k];
        let m = char_span(&offsets, b, e, Ghost(t@));
        assert(m == cms[k as int]);
        let matched = string_of(slice_chars(&t, m.start, m.end).as_slice());
        let replaced = regex_replace(&re, matched.as_str(), replacement_text);
        reps.push(replaced);
        k = k + 1;
    }
    let r = splice_byte_matches(text, &bms, &reps);
    assert(crate::text::views(reps@) =~= regex_replacements(p, text@, replacement_text@));
    Ok(r)
}

/// Replaces all occurrences of `search_text` by `replacement_text`. The
/// matches are all collected first, then replaced from the highest offset
/// down so that every collected position stays valid.
pub fn replace_all_advanced(
    text: &str,
    search_text: &str,
    replacement_text: &str,
    match_case: bool,
    whole_word: bool,
    use_regex: bool,
) -> (r: Result<ReplaceAll, SearchError>)
    ensures
        !use_regex ==> (r matches Ok(o) && ({
            let ms = literal_matches(text@, search_text@, match_case, whole_word);
            &&& o.count == ms.len()
            &&& o.text@ == spliced(text@, ms, copies(replacement_text@, ms.len()))
            &&& reverse_edits(ms, copies(replacement_text@, ms.len()), o.edits@)
        })),
        use_regex ==> (r is Err <==> !regex_compiles(effective_pattern(search_text@, match_case))),
        use_regex ==> (r matches Ok(o) ==> ({
            let p = effective_pattern(search_text@, match_case);
            let ms = regex_char_matches(p, text@);
            let reps = regex_replacements(p, text@, replacement_text@);
            &&& o.count == ms.len()
            &&& o.text@ == spliced(text@, ms, reps)
            &&& reverse_edits(ms, reps, o.edits@)
        })),
        r matches Ok(o) ==> {
            &&& o.count == o.edits@.len()
            &&& o.text@ == apply_edits(text@, o.edits@)
            &&& edits_descending(o.edits@, text@.len() as int)
        },
{
    if use_regex {
        return replace_all_regex(text, search_text, replacement_text, match_case);
    }
    let t = chars_of(text);
    let p = chars_of(search_text);
    let rep = chars_of(replacement_text);
    let (chars, edits) = replace_all_literal(&t, &p, &rep, match_case, whole_word);
    let count = edits.len();
    Ok(ReplaceAll { text: string_of(chars.as_slice()), count, edits })
}

/// How many occurrences a replace-all would replace.
pub fn count_all_occurrences(
    text: &str,
    search_text: &str,
    match_case: bool,
    whole_word: bool,
    use_regex: bool,
) -> (r: Result<usize, SearchError>)
    ensures
        !use_regex ==> r == Ok::<usize, SearchError>(
            literal_matches(text@, search_text@, match_case, whole_word).len() as usize,
        ),
        use_regex ==> (r is Err <==> !regex_compiles(effective_pattern(search_text@, match_case))),
        use_regex && r is Ok ==> r == Ok::<usize, SearchError>(
            regex_all_matches(effective_pattern(search_text@, match_case), text@).len() as usize,
        ),
{
    if use_regex {
        match compile_for_search(search_text, match_case) {
            Ok(re) => Ok(regex_find_iter(&re, text).len()),
            Err(e) => Err(e),
        }
    } else {
        let t = chars_of(text);
        let p = chars_of(search_text);
        Ok(collect_literal_matches(&t, &p, match_case, whole_word).len())
    }
}

/// A selection that lies within a text of `len` characters.
pub open spec fn selection_valid(sel: Option<SearchMatch>, len: int) -> bool {
    sel matches Some(m) && m.start <= m.end <= len
}

/// The edit that replaces the current selection. In regex mode the pattern
/// is checked first, and the selection is replaced only if the regex matches
/// inside it, by the regex's own replacement of the selected text.
pub fn replace_selection_advanced(
    text: &str,
    selection: Option<SearchMatch>,
    search_text: &str,
    replacement_text: &str,
    match_case: bool,
    use_regex: bool,
) -> (r: Result<Option<TextEdit>, SearchError>)
    ensures
        use_regex ==> (r is Err <==> !regex_compiles(effective_pattern(search_text@, match_case))),
        !use_regex ==> (r matches Ok(x) && (x is Some <==> selection_valid(selection, text@.len() as int))),
        !use_regex ==> (r matches Ok(Some(e)) ==> e.text@ == replacement_text@),
        use_regex && r is Ok ==> ({
            let sel = selection->0;
            let selected = text@.subrange(sel.start as int, sel.end as int);
            &&& r matches Ok(x) && (x is Some <==> selection_valid(selection, text@.len() as int)
                && regex_first_from(effective_pattern(search_text@, match_case), selected, 0) is Some)
            &&& r matches Ok(Some(e)) ==> e.text@ == regex_first_replaced(
                effective_pattern(search_text@, match_case),
                selected,
                replacement_text@,
            )
        }),
        r matches Ok(Some(e)) ==> selection_valid(selection, text@.len() as int) && selection == Some(
            SearchMatch { start: e.start, end: e.end },
        ),
{
    let re = if use_regex {
        match compile_for_search(search_text, match_case) {
            Ok(re) => Some(re),
            Err(e) => return Err(e),
        }
    } else {
        None
    };
    let t = chars_of(text);
    let m = match selection {
        Some(m) => m,
        None => return Ok(None),
    };
    if m.start > m.end || m.end > t.len() {
        return Ok(None);
    }
    match re {
        None => Ok(Some(TextEdit { start: m.start, end: m.end, text: replacement_text.to_owned() })),
        Some(re) => {
            let matched = string_of(slice_chars(&t, m.start, m.end).as_slice());
            if regex_find_at(&re, matched.as_str(), 0).is_none() {
                return Ok(None);
            }
            let replaced = regex_replace(&re, matched.as_str(), replacement_text);
            Ok(Some(TextEdit { start: m.start, end: m.end, text: replaced }))
        },
    }
}

/// The last word start at or before `i`.
pub open spec fn word_start_before(t: Seq<char>, i: int) -> Option<int>
    decreases i + 1,
{
    if i < 0 {
        None
    } else if starts_word(t, i) {
        Some(i)
    } else {
        word_start_before(t, i - 1)
    }
}

/// The first word end at or after `j`.
pub open spec fn word_end_after(t: Seq<char>, j: int) -> Option<int>
    decreases t.len() + 1 - j,
{
    if j > t.len() || j < 0 {
        None
    } else if ends_word(t, j) {
        Some(j)
    } else {
        word_end_after(t, j + 1)
    }
}

/// The stretch of text around `cursor` taken as "the word under the
/// cursor": from the cursor, or the nearest word start before it, to the
/// cursor, or the nearest word end after it. A side with no such boundary
/// stays at the cursor.
pub open spec fn word_around(t: Seq<char>, cursor: int) -> (int, int) {
    let s = match word_start_before(t, cursor) {
        Some(i) => i,
        None => cursor,
    };
    let e = match word_end_after(t, cursor) {
        Some(j) => j,
        None => cursor,
    };
    (s, e)
}

/// Gets the selected text, or, with no selection, the word under the
/// cursor (the cursor is clamped to the text).
pub fn get_selected_text_or_word(text: &str, selection: Option<SearchMatch>, cursor: usize) -> (r: String)
    ensures
        selection_valid(selection, text@.len() as int) ==> r@ == text@.subrange(
            selection->0.start as int,
            selection->0.end as int,
        ),
        !selection_valid(selection, text@.len() as int) ==> ({
            let c = if cursor < text@.len() { cursor as int } else { text@.len() as int };
            let (s, e) = word_around(text@, c);
            r@ == text@.subrange(s, e)
        }),
{
    let t = chars_of(text);
    if let Some(m) = selection {
        if m.start <= m.end && m.end <= t.len() {
            return string_of(slice_chars(&t, m.start, m.end).as_slice());
        }
    }
    let c = if cursor < t.len() { cursor } else { t.len() };
    proof {
        lemma_word_start_before(t@, c as int);
        lemma_word_end_after(t@, c as int);
    }
    let s = match word_start_at_or_before(&t, c) {
        Some(i) => i,
        None => c,
    };
    let e = match word_end_at_or_after(&t, c) {
        Some(j) => j,
        None => c,
    };
    string_of(slice_chars(&t, s, e).as_slice())
}

fn word_start_at_or_before(t: &Vec<char>, c: usize) -> (r: Option<usize>)
    requires
        c <= t@.len(),
    ensures
        r == (match word_start_before(t@, c as int) {
            Some(i) => Some(i as usize),
            None => None::<usize>,
        }),
        r matches Some(i) ==> i <= c,
{
    proof {
        lemma_word_start_before(t@, c as int);
    }
    let mut i: usize = c;
    loop
        invariant
            i <= c <= t@.len(),
            word_start_before(t@, c as int) == word_start_before(t@, i as int),
        decreases i,
    {
        if at_word_start(t, i) {
            return Some(i);
        }
        if i == 0 {
            assert(word_start_before(t@, -1) == None::<int>);
            return None;
        }
        i = i - 1;
    }
}

fn word_end_at_or_after(t: &Vec<char>, c: usize) -> (r: Option<usize>)
    requires
        c <= t@.len(),
    ensures
        r == (match word_end_after(t@, c as int) {
            Some(j) => Some(j as usize),
            None => None::<usize>,
        }),
        r matches Some(j) ==> c <= j <= t@.len(),
{
    proof {
        lemma_word_end_after(t@, c as int);
    }
    let n = t.len();
    let mut j: usize = c;
    loop
        invariant
            c <= j <= n,
            n == t@.len(),
            word_end_after(t@, c as int) == word_end_after(t@, j as int),
        decreases n - j,
    {
        if at_word_end(t, j) {
            return Some(j);
        }
        if j == n {
            assert(word_end_after(t@, n as int + 1) == None::<int>);
            return None;
        }
        j = j + 1;
    }
}

proof fn lemma_word_start_before(t: Seq<char>, i: int)
    ensures
        word_start_before(t, i) matches Some(k) ==> 0 <= k <= i && k < t.len(),
    decreases i + 1,
{
    if i >= 0 && !starts_word(t, i) {
        lemma_word_start_before(t, i - 1);
    }
}

proof fn lemma_word_end_after(t: Seq<char>, j: int)
    ensures
        word_end_after(t, j) matches Some(k) ==> j <= k <= t.len() && 0 < k,
    decreases t.len() + 1 - j,
{
    if 0 <= j <= t.len() && !ends_word(t, j) {
        lemma_word_end_after(t, j + 1);
    }
}

} // verus!
