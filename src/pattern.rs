//! Regular expressions, through the `regex` crate. A compiled pattern
//! carries the text it was compiled from, so that what a search returns can
//! be named by that text. Matches come back as UTF-8 byte offsets and are
//! turned into character positions here.

use vstd::prelude::*;
use crate::search::SearchMatch;
use crate::text::{byte_len, byte_offsets, chars_of, char_boundary, lemma_byte_len_prefix, lemma_byte_len_step};

verus! {

broadcast use vstd::string::group_string_axioms;

#[verifier::external_type_specification]
#[verifier::external_body]
pub struct ExRegex(regex::Regex);

#[verifier::external_type_specification]
#[verifier::external_body]
pub struct ExRegexError(regex::Error);

/// Whether `regex::Regex::new` accepts the pattern.
pub uninterp spec fn regex_compiles(pattern: Seq<char>) -> bool;

/// What `regex::Regex::find_at` returns for the pattern, haystack and
/// starting byte, as byte offsets.
pub uninterp spec fn regex_first_from(pattern: Seq<char>, hay: Seq<char>, start: usize) -> Option<(usize, usize)>;

/// What `regex::Regex::find_iter` yields for the pattern and haystack, as
/// byte offsets.
pub uninterp spec fn regex_all_matches(pattern: Seq<char>, hay: Seq<char>) -> Seq<(usize, usize)>;

/// What `regex::Regex::replace` returns for the pattern, haystack and
/// replacement text.
pub uninterp spec fn regex_first_replaced(pattern: Seq<char>, hay: Seq<char>, rep: Seq<char>) -> Seq<char>;

/// A compiled regular expression and the pattern it was compiled from.
pub struct CompiledPattern {
    regex: regex::Regex,
    source: String,
}

impl CompiledPattern {
    /// The pattern this was compiled from.
    pub closed spec fn pattern(&self) -> Seq<char> {
        self.source@
    }
}

/// Byte ranges of `s` that are in order, do not overlap, and lie on
/// character boundaries.
pub open spec fn byte_matches_ordered(s: Seq<char>, ms: Seq<(usize, usize)>) -> bool {
    &&& forall|k: int|
        0 <= k < ms.len() ==> {
            &&& (#[trigger] ms[k]).0 <= ms[k].1 <= byte_len(s)
            &&& char_boundary(s, ms[k].0 as int)
            &&& char_boundary(s, ms[k].1 as int)
        }
    &&& forall|k: int| 0 <= k < ms.len() - 1 ==> (#[trigger] ms[k]).1 <= ms[k + 1].0
}

/// Relies on `regex::Regex::new`: it compiles the pattern or reports why
/// not, and which of the two depends on the pattern alone.
#[verifier::external_body]
fn regex_new(pattern: &str) -> (r: Result<CompiledPattern, regex::Error>)
    ensures
        r is Ok <==> regex_compiles(pattern@),
        r matches Ok(c) ==> c.pattern() == pattern@,
{
    regex::Regex::new(pattern).map(|regex| CompiledPattern { regex, source: pattern.to_string() })
}

/// Relies on the `Display` text of `regex::Error`, shown to the user.
#[verifier::external_body]
pub(crate) fn regex_error_message(e: &regex::Error) -> String {
    e.to_string()
}

/// Relies on `regex::Regex::find_at`: a match starting at or after byte
/// `start`, given as byte offsets that lie on character boundaries.
#[verifier::external_body]
pub(crate) fn regex_find_at(re: &CompiledPattern, hay: &str, start: usize) -> (r: Option<(usize, usize)>)
    requires
        start <= byte_len(hay@),
    ensures
        r == regex_first_from(re.pattern(), hay@, start),
        r matches Some((b, e)) ==> start <= b <= e <= byte_len(hay@) && char_boundary(hay@, b as int)
            && char_boundary(hay@, e as int),
{
    re.regex.find_at(hay, start).map(|m| (m.start(), m.end()))
}

/// Relies on `regex::Regex::find_iter`: successive non-overlapping matches,
/// as byte offsets on character boundaries; an empty match is never
/// reported where the previous match ended.
#[verifier::external_body]
pub(crate) fn regex_find_iter(re: &CompiledPattern, hay: &str) -> (r: Vec<(usize, usize)>)
    ensures
        r@ == regex_all_matches(re.pattern(), hay@),
        byte_matches_ordered(hay@, r@),
        forall|k: int| 0 <= k < r@.len() - 1 && (#[trigger] r@[k + 1]).0 == r@[k + 1].1 ==> r@[k].1 < r@[k + 1].0,
{
    re.regex.find_iter(hay).map(|m| (m.start(), m.end())).collect()
}

/// Relies on `regex::Regex::replace`: the haystack with its first match
/// replaced, expanding `$name` references in `rep`.
#[verifier::external_body]
pub(crate) fn regex_replace(re: &CompiledPattern, hay: &str, rep: &str) -> (r: String)
    ensures
        r@ == regex_first_replaced(re.pattern(), hay@, rep@),
{
    re.regex.replace(hay, rep).into_owned()
}

/// Relies on `regex::Regex::clone`, which shares the compiled program.
#[verifier::external_body]
fn regex_clone(re: &regex::Regex) -> regex::Regex {
    re.clone()
}

/// The pattern handed to the regex engine: case folding, when asked for,
/// is switched on by an inline flag.
pub open spec fn effective_pattern(p: Seq<char>, match_case: bool) -> Seq<char> {
    if match_case {
        p
    } else {
        seq!['(', '?', 'i', ')'] + p
    }
}

/// The text of the effective pattern.
fn effective_text(pattern: &str, match_case: bool) -> (r: String)
    ensures
        r@ == effective_pattern(pattern@, match_case),
{
    if match_case {
        pattern.to_owned()
    } else {
        let mut full = String::from_str("(?i)");
        proof {
            reveal_strlit("(?i)");
        }
        full.append(pattern);
        assert(full@ =~= effective_pattern(pattern@, match_case));
        full
    }
}

/// Compiles a regex pattern with optional case insensitivity: the pattern
/// as typed, or with the `(?i)` flag in front unless `match_case`.
pub fn compile_regex(pattern: &str, match_case: bool) -> (r: Result<CompiledPattern, regex::Error>)
    ensures
        r is Ok <==> regex_compiles(effective_pattern(pattern@, match_case)),
        r matches Ok(c) ==> c.pattern() == effective_pattern(pattern@, match_case),
{
    let full = effective_text(pattern, match_case);
    regex_new(full.as_str())
}

impl CompiledPattern {
    /// The compiled regex.
    pub fn regex(&self) -> &regex::Regex {
        &self.regex
    }

    /// The pattern this was compiled from.
    pub fn as_str(&self) -> (r: &str)
        ensures
            r@ == self.pattern(),
    {
        self.source.as_str()
    }

    /// Another handle on the same compiled regex.
    pub fn duplicate(&self) -> (r: CompiledPattern)
        ensures
            r.pattern() == self.pattern(),
    {
        CompiledPattern { regex: regex_clone(&self.regex), source: self.source.clone() }
    }
}

/// Compiled regexes, each stored under the pattern it was compiled from.
pub struct RegexCache {
    entries: Vec<CompiledPattern>,
}

impl RegexCache {
    /// The patterns held, in the order they were added.
    pub closed spec fn patterns(&self) -> Seq<Seq<char>> {
        self.entries@.map_values(|e: CompiledPattern| e.pattern())
    }

    /// Every pattern held compiles, and none is held twice.
    pub closed spec fn wf(&self) -> bool {
        &&& forall|i: int| 0 <= i < self.entries@.len() ==> regex_compiles((#[trigger] self.entries@[i]).pattern())
        &&& self.patterns().no_duplicates()
    }

    /// An empty cache.
    pub fn new() -> (r: Self)
        ensures
            r.wf(),
            r.patterns() == Seq::<Seq<char>>::empty(),
    {
        let r = RegexCache { entries: Vec::new() };
        assert(r.patterns() =~= Seq::<Seq<char>>::empty());
        r
    }

    fn position(&self, key: &String) -> (r: Option<usize>)
        ensures
            r matches Some(i) ==> i < self.entries@.len() && self.entries@[i as int].pattern() == key@,
            r is None ==> !self.patterns().contains(key@),
    {
        let mut i: usize = 0;
        while i < self.entries.len()
            invariant
                i <= self.entries@.len(),
                forall|k: int| 0 <= k < i ==> (#[trigger] self.entries@[k]).pattern() != key@,
            decreases self.entries@.len() - i,
        {
            if self.entries[i].source == *key {
                return Some(i);
            }
            i = i + 1;
        }
        proof {
            if self.patterns().contains(key@) {
                let k = choose|k: int| 0 <= k < self.patterns().len() && self.patterns()[k] == key@;
                assert(self.entries@[k].pattern() == key@);
            }
        }
        None
    }
}

/// Compiles a regex pattern with optional case insensitivity, reusing the
/// compiled regex when the same effective pattern was compiled before; a
/// pattern compiled for the first time is kept for later.
pub fn compile_regex_with_cache(cache: &mut RegexCache, pattern: &str, match_case: bool) -> (r: Result<
    CompiledPattern,
    regex::Error,
>)
    requires
        old(cache).wf(),
    ensures
        final(cache).wf(),
        r is Ok <==> regex_compiles(effective_pattern(pattern@, match_case)),
        r matches Ok(c) ==> c.pattern() == effective_pattern(pattern@, match_case)
            && final(cache).patterns().contains(c.pattern()),
        ({
            let key = effective_pattern(pattern@, match_case);
            final(cache).patterns() == if old(cache).patterns().contains(key) || !regex_compiles(key) {
                old(cache).patterns()
            } else {
                old(cache).patterns().push(key)
            }
        }),
{
    let key = effective_text(pattern, match_case);
    match cache.position(&key) {
        Some(i) => {
            assert(regex_compiles(cache.entries@[i as int].pattern()));
            assert(cache.patterns()[i as int] == key@);
            Ok(cache.entries[i].duplicate())
        },
        None => {
            match regex_new(key.as_str()) {
                Ok(c) => {
                    let found = c.duplicate();
                    cache.entries.push(c);
                    assert(cache.patterns() =~= old(cache).patterns().push(key@));
                    assert(cache.patterns()[cache.patterns().len() - 1] == key@);
                    Ok(found)
                },
                Err(e) => Err(e),
            }
        },
    }
}

/// The character position whose UTF-8 byte offset in `t` is `b`.
pub open spec fn char_at_byte(t: Seq<char>, b: int) -> int {
    choose|i: int| 0 <= i <= t.len() && #[trigger] byte_len(t.take(i)) == b
}

/// A byte range of `t` as character positions.
pub open spec fn char_match(t: Seq<char>, bm: (usize, usize)) -> SearchMatch {
    SearchMatch { start: char_at_byte(t, bm.0 as int) as usize, end: char_at_byte(t, bm.1 as int) as usize }
}

/// Longer prefixes take more bytes.
pub proof fn lemma_byte_len_strict(t: Seq<char>, i: int, j: int)
    requires
        0 <= i < j <= t.len(),
    ensures
        byte_len(t.take(i)) < byte_len(t.take(j)),
    decreases j - i,
{
    lemma_byte_len_step(t, j - 1);
    if i < j - 1 {
        lemma_byte_len_strict(t, i, j - 1);
    }
}

/// Each character boundary has exactly one character position.
pub proof fn lemma_char_at_byte(t: Seq<char>, i: int)
    requires
        0 <= i <= t.len(),
    ensures
        char_at_byte(t, byte_len(t.take(i)) as int) == i,
{
    let b = byte_len(t.take(i)) as int;
    assert(exists|k: int| 0 <= k <= t.len() && #[trigger] byte_len(t.take(k)) == b);
    let k = char_at_byte(t, b);
    if k < i {
        lemma_byte_len_strict(t, k, i);
    } else if k > i {
        lemma_byte_len_strict(t, i, k);
    }
}

/// Character positions agree between a text and its prefixes.
pub proof fn lemma_char_at_byte_prefix(t: Seq<char>, n: int, b: int)
    requires
        0 <= n <= t.len(),
        char_boundary(t.take(n), b),
    ensures
        char_at_byte(t.take(n), b) == char_at_byte(t, b),
        char_boundary(t, b),
        char_at_byte(t, b) <= n,
{
    let p = t.take(n);
    let i = choose|i: int| 0 <= i <= p.len() && #[trigger] byte_len(p.take(i)) == b;
    assert(p.take(i) =~= t.take(i));
    lemma_char_at_byte(p, i);
    lemma_char_at_byte(t, i);
}

/// The position of byte offset `b` in the offsets table of `t`, when it
/// falls on a character boundary.
fn position_of_byte(offsets: &Vec<usize>, b: usize, Ghost(t): Ghost<Seq<char>>) -> (r: Option<usize>)
    requires
        offsets@.len() == t.len() + 1,
        forall|k: int| 0 <= k <= t.len() ==> #[trigger] offsets@[k] == byte_len(t.take(k)),
    ensures
        r is Some <==> char_boundary(t, b as int),
        r matches Some(i) ==> i <= t.len() && i as int == char_at_byte(t, b as int),
{
    let mut lo: usize = 0;
    let mut hi: usize = offsets.len() - 1;
    while lo < hi
        invariant
            offsets@.len() == t.len() + 1,
            forall|k: int| 0 <= k <= t.len() ==> #[trigger] offsets@[k] == byte_len(t.take(k)),
            lo <= hi <= t.len(),
            forall|k: int| 0 <= k < lo ==> #[trigger] byte_len(t.take(k)) < b,
            forall|k: int| hi < k <= t.len() ==> #[trigger] byte_len(t.take(k)) > b,
        decreases hi - lo,
    {
        let mid = lo + (hi - lo) / 2;
        proof {
            assert forall|k: int| 0 <= k < mid implies #[trigger] byte_len(t.take(k)) < byte_len(t.take(mid as int)) by {
                lemma_byte_len_strict(t, k, mid as int);
            }
            assert forall|k: int| mid < k <= t.len() implies #[trigger] byte_len(t.take(k)) > byte_len(t.take(mid as int)) by {
                lemma_byte_len_strict(t, mid as int, k);
            }
        }
        if offsets[mid] < b {
            lo = mid + 1;
        } else if offsets[mid] > b {
            hi = mid;
        } else {
            proof {
                lemma_char_at_byte(t, mid as int);
            }
            return Some(mid);
        }
    }
    if offsets[lo] == b {
        proof {
            lemma_char_at_byte(t, lo as int);
        }
        Some(lo)
    } else {
        proof {
            if char_boundary(t, b as int) {
                let k = choose|k: int| 0 <= k <= t.len() && #[trigger] byte_len(t.take(k)) == b;
                assert(offsets@[k] == b);
            }
        }
        None
    }
}

/// A byte range on character boundaries, as character positions.
pub(crate) fn char_span(offsets: &Vec<usize>, b: usize, e: usize, Ghost(t): Ghost<Seq<char>>) -> (m: SearchMatch)
    requires
        offsets@.len() == t.len() + 1,
        forall|k: int| 0 <= k <= t.len() ==> #[trigger] offsets@[k] == byte_len(t.take(k)),
        char_boundary(t, b as int),
        char_boundary(t, e as int),
        b <= e,
    ensures
        m == char_match(t, (b, e)),
        m.start <= m.end <= t.len(),
{
    let start = match position_of_byte(offsets, b, Ghost(t)) {
        Some(i) => i,
        None => 0,
    };
    let end = match position_of_byte(offsets, e, Ghost(t)) {
        Some(i) => i,
        None => 0,
    };
    proof {
        if end < start {
            lemma_byte_len_strict(t, end as int, start as int);
        }
    }
    SearchMatch { start, end }
}

/// A byte range of `text` as character positions, when both ends fall on
/// character boundaries and the range is not reversed.
pub fn char_span_of(text: &str, m: (usize, usize)) -> (r: Option<SearchMatch>)
    ensures
        r is Some <==> m.0 <= m.1 && char_boundary(text@, m.0 as int) && char_boundary(text@, m.1 as int),
        r matches Some(c) ==> c == char_match(text@, m) && c.start <= c.end <= text@.len(),
{
    let t = chars_of(text);
    let total = text.as_bytes().len();
    let offsets = byte_offsets(&t, total);
    let (b, e) = m;
    if b > e {
        return None;
    }
    let s = position_of_byte(&offsets, b, Ghost(t@));
    let f = position_of_byte(&offsets, e, Ghost(t@));
    if s.is_none() || f.is_none() {
        return None;
    }
    Some(char_span(&offsets, b, e, Ghost(t@)))
}

} // verus!
