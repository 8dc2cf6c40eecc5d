//! Tracks which lines of a document were touched since the last highlighting
//! pass.

use std::collections::HashSet;
use vstd::prelude::*;

verus! {

broadcast use vstd::std_specs::hash::group_hash_axioms;

/// The lines `start ..= end` (empty when `start > end`).
pub open spec fn line_range(start: i32, end: i32) -> Set<i32> {
    Set::new(|l: i32| start <= l && l <= end)
}

/// The dirty set after edits of the line ranges `edits`, in order, each
/// adding its lines.
pub open spec fn after_edits(dirty: Set<i32>, edits: Seq<(i32, i32)>) -> Set<i32>
    decreases edits.len(),
{
    if edits.len() == 0 {
        dirty
    } else {
        after_edits(dirty, edits.drop_last()).union(line_range(edits.last().0, edits.last().1))
    }
}

/// After an edit of lines `a ..= b`, every one of those lines stays dirty
/// through any further edits until the set is drained.
pub proof fn lemma_edited_lines_stay_dirty(dirty: Set<i32>, a: i32, b: i32, later: Seq<(i32, i32)>)
    ensures
        forall|l: i32| a <= l <= b ==> #[trigger] after_edits(dirty.union(line_range(a, b)), later).contains(l),
    decreases later.len(),
{
    let start = dirty.union(line_range(a, b));
    if later.len() > 0 {
        lemma_edited_lines_stay_dirty(dirty, a, b, later.drop_last());
        assert forall|l: i32| a <= l <= b implies #[trigger] after_edits(start, later).contains(l) by {
            assert(after_edits(start, later.drop_last()).contains(l));
        }
    } else {
        assert forall|l: i32| a <= l <= b implies #[trigger] after_edits(start, later).contains(l) by {
            assert(line_range(a, b).contains(l));
        }
    }
}

/// Tracks changes in a text buffer for incremental highlighting.
pub struct ChangeTracker {
    /// Set of lines that have been modified since the last drain.
    pub changed_lines: HashSet<i32>,
    /// The last inserted text.
    pub last_inserted_text: String,
    /// The position (line, offset in line) where the last insertion occurred.
    pub last_insert_position: Option<(i32, i32)>,
}

impl ChangeTracker {
    /// The dirty set.
    pub open spec fn dirty(&self) -> Set<i32> {
        self.changed_lines@
    }

    /// Creates a tracker with no pending changes.
    pub fn new() -> (r: Self)
        ensures
            r.dirty() == Set::<i32>::empty(),
            r.last_inserted_text@ == Seq::<char>::empty(),
            r.last_insert_position is None,
    {
        ChangeTracker {
            changed_lines: HashSet::new(),
            last_inserted_text: String::new(),
            last_insert_position: None,
        }
    }

    /// Adds every line of `start_line ..= end_line` to the dirty set.
    pub fn record_edit(&mut self, start_line: i32, end_line: i32)
        ensures
            final(self).dirty() == old(self).dirty().union(line_range(start_line, end_line)),
            final(self).last_inserted_text == old(self).last_inserted_text,
            final(self).last_insert_position == old(self).last_insert_position,
    {
        if start_line > end_line {
            assert(line_range(start_line, end_line) =~= Set::<i32>::empty());
            assert(self.dirty().union(line_range(start_line, end_line)) =~= self.dirty());
            return ;
        }
        let mut line: i64 = start_line as i64;
        while line <= end_line as i64
            invariant
                start_line <= line <= end_line as i64 + 1,
                self.dirty() == old(self).dirty().union(
                    Set::new(|l: i32| start_line <= l && l < line),
                ),
                self.last_inserted_text == old(self).last_inserted_text,
                self.last_insert_position == old(self).last_insert_position,
            decreases end_line as i64 + 1 - line,
        {
            self.changed_lines.insert(line as i32);
            line = line + 1;
            assert(self.dirty() =~= old(self).dirty().union(
                Set::new(|l: i32| start_line <= l && l < line),
            ));
        }
        assert(Set::new(|l: i32| start_line <= l && l < line) =~= line_range(start_line, end_line));
    }

    /// Records an insertion of `text` spanning the lines `start_line ..=
    /// end_line`, that began at `start_offset` within `start_line`.
    pub fn record_insertion(&mut self, start_line: i32, start_offset: i32, end_line: i32, text: &str)
        ensures
            final(self).dirty() == old(self).dirty().union(line_range(start_line, end_line)),
            final(self).last_inserted_text@ == text@,
            final(self).last_insert_position == Some((start_line, start_offset)),
    {
        self.record_edit(start_line, end_line);
        self.last_inserted_text = text.to_owned();
        self.last_insert_position = Some((start_line, start_offset));
    }

    /// Records a deletion whose remaining text spans the lines `start_line
    /// ..= end_line`.
    pub fn record_deletion(&mut self, start_line: i32, end_line: i32)
        ensures
            final(self).dirty() == old(self).dirty().union(line_range(start_line, end_line)),
            final(self).last_inserted_text == old(self).last_inserted_text,
            final(self).last_insert_position == old(self).last_insert_position,
    {
        self.record_edit(start_line, end_line);
    }

    /// Returns the dirty set and clears the tracker's copy.
    pub fn take_changed_lines(&mut self) -> (r: HashSet<i32>)
        ensures
            r@ == old(self).dirty(),
            final(self).dirty() == Set::<i32>::empty(),
            final(self).last_inserted_text == old(self).last_inserted_text,
            final(self).last_insert_position == old(self).last_insert_position,
    {
        let mut taken: HashSet<i32> = HashSet::new();
        std::mem::swap(&mut taken, &mut self.changed_lines);
        taken
    }

    /// Whether any line is dirty.
    pub fn has_changes(&self) -> (r: bool)
        ensures
            r == !self.dirty().is_empty(),
    {
        !self.changed_lines.is_empty()
    }
}

} // verus!
