//! Bracket matching: the counterpart of the bracket under the cursor, found
//! by counting nesting depth, and the highlight changes a cursor move calls
//! for. The scan reads characters only; it does not know about strings or
//! comments.

use vstd::prelude::*;
use crate::text::chars_of;

verus! {

/// For a bracket character: its opening and closing forms and whether the
/// scan for its counterpart runs forward.
pub open spec fn bracket_kind(c: char) -> Option<(char, char, bool)> {
    if c == '(' {
        Some(('(', ')', true))
    } else if c == ')' {
        Some(('(', ')', false))
    } else if c == '[' {
        Some(('[', ']', true))
    } else if c == ']' {
        Some(('[', ']', false))
    } else if c == '{' {
        Some(('{', '}', true))
    } else if c == '}' {
        Some(('{', '}', false))
    } else {
        None
    }
}

/// How a character moves the depth of a scan that counts `same` up and
/// `other` down.
pub open spec fn step(c: char, same: char, other: char) -> int {
    if c == same {
        1
    } else if c == other {
        -1
    } else {
        0
    }
}

/// Nesting depth after a forward scan from `pos` has read position `j`:
/// one for the seed bracket, plus openers, minus closers in `pos+1 ..= j`.
pub open spec fn depth_forward(t: Seq<char>, pos: int, open: char, close: char, j: int) -> int
    decreases j - pos,
{
    if j <= pos {
        1
    } else {
        depth_forward(t, pos, open, close, j - 1) + step(t[j], open, close)
    }
}

/// Nesting depth after a backward scan from `pos` has read position `j`:
/// one for the seed bracket, plus closers, minus openers in `j ..= pos-1`.
pub open spec fn depth_backward(t: Seq<char>, pos: int, open: char, close: char, j: int) -> int
    decreases pos - j,
{
    if j >= pos {
        1
    } else {
        depth_backward(t, pos, open, close, j + 1) + step(t[j], close, open)
    }
}

/// `j` is the counterpart of the bracket at `pos`: the first position the
/// scan reaches where the depth drops to zero.
pub open spec fn is_counterpart(t: Seq<char>, pos: int, j: int) -> bool {
    0 <= pos < t.len() && match bracket_kind(t[pos]) {
        Some((open, close, true)) => {
            &&& pos < j < t.len()
            &&& depth_forward(t, pos, open, close, j) == 0
            &&& forall|k: int| pos < k < j ==> depth_forward(t, pos, open, close, k) > 0
        },
        Some((open, close, false)) => {
            &&& 0 <= j < pos
            &&& depth_backward(t, pos, open, close, j) == 0
            &&& forall|k: int| j < k < pos ==> depth_backward(t, pos, open, close, k) > 0
        },
        None => false,
    }
}

/// The bracket at `pos` has a counterpart.
pub open spec fn has_counterpart(t: Seq<char>, pos: int) -> bool {
    exists|j: int| is_counterpart(t, pos, j)
}

/// Finds the matching bracket of the bracket at `pos`, if that position
/// holds one of `( ) [ ] { }` and the scan reaches depth zero.
pub fn find_matching_bracket(text: &str, pos: usize) -> (r: Option<usize>)
    ensures
        r matches Some(j) ==> is_counterpart(text@, pos as int, j as int),
        r is None ==> !has_counterpart(text@, pos as int),
{
    let t = chars_of(text);
    let n = t.len();
    if pos >= n {
        return None;
    }
    let c = t[pos];
    let (open, close, forward) = if c == '(' {
        ('(', ')', true)
    } else if c == ')' {
        ('(', ')', false)
    } else if c == '[' {
        ('[', ']', true)
    } else if c == ']' {
        ('[', ']', false)
    } else if c == '{' {
        ('{', '}', true)
    } else if c == '}' {
        ('{', '}', false)
    } else {
        return None;
    };
    assert(bracket_kind(t@[pos as int]) == Some((open, close, forward)));
    let mut depth: usize = 1;
    if forward {
        let mut j: usize = pos + 1;
        while j < n
            invariant
                n == t@.len(),
                t@ == text@,
                pos < j <= n,
                bracket_kind(t@[pos as int]) == Some((open, close, true)),
                depth as int == depth_forward(t@, pos as int, open, close, j - 1),
                1 <= depth <= j - pos,
                forall|k: int| pos < k < j ==> depth_forward(t@, pos as int, open, close, k) > 0,
            decreases n - j,
        {
            let d = t[j];
            if d == open {
                depth = depth + 1;
            } else if d == close {
                depth = depth - 1;
                if depth == 0 {
                    return Some(j);
                }
            }
            j = j + 1;
        }
        proof {
            if has_counterpart(text@, pos as int) {
                let w = choose|w: int| is_counterpart(text@, pos as int, w);
                assert(depth_forward(t@, pos as int, open, close, w) > 0);
            }
        }
        None
    } else {
        let mut j: usize = pos;
        while j > 0
            invariant
                n == t@.len(),
                t@ == text@,
                j <= pos < n,
                bracket_kind(t@[pos as int]) == Some((open, close, false)),
                depth as int == depth_backward(t@, pos as int, open, close, j as int),
                1 <= depth <= pos - j + 1,
                forall|k: int| j <= k < pos ==> depth_backward(t@, pos as int, open, close, k) > 0,
            decreases j,
        {
            j = j - 1;
            let d = t[j];
            if d == close {
                depth = depth + 1;
            } else if d == open {
                depth = depth - 1;
                if depth == 0 {
                    return Some(j);
                }
            }
        }
        proof {
            if has_counterpart(text@, pos as int) {
                let w = choose|w: int| is_counterpart(text@, pos as int, w);
                assert(depth_backward(t@, pos as int, open, close, w) > 0);
            }
        }
        None
    }
}

/// The two positions highlighted as a matched pair: the bracket at the
/// cursor and its counterpart.
#[derive(Clone, Copy, Debug, PartialEq, Eq, Structural)]
pub struct BracketPair {
    pub cursor: usize,
    pub partner: usize,
}

/// What a cursor move changes: the pair whose highlight goes, then the pair
/// that gets one.
#[derive(Clone, Copy, Debug, PartialEq, Eq, Structural)]
pub struct BracketUpdate {
    pub remove: Option<BracketPair>,
    pub apply: Option<BracketPair>,
}

/// The pair to highlight for a cursor at `pos`.
pub open spec fn pair_at(t: Seq<char>, pos: int, r: Option<BracketPair>) -> bool {
    match r {
        Some(p) => p.cursor == pos && is_counterpart(t, pos, p.partner as int),
        None => !has_counterpart(t, pos),
    }
}

/// Handles a cursor move: the previously highlighted pair, if any, is
/// removed, and the pair at the new cursor, if any, takes its place, so at
/// most one pair is highlighted at a time.
pub fn update_bracket_highlighting(text: &str, cursor: usize, previous: &mut Option<BracketPair>) -> (r: BracketUpdate)
    ensures
        r.remove == *old(previous),
        pair_at(text@, cursor as int, r.apply),
        *final(previous) == r.apply,
{
    let remove = *previous;
    let apply = match find_matching_bracket(text, cursor) {
        Some(j) => Some(BracketPair { cursor, partner: j }),
        None => None,
    };
    *previous = apply;
    BracketUpdate { remove, apply }
}

} // verus!
