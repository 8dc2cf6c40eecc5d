//! Debounced re-highlighting. Each edit cancels the document's pending
//! highlighting task and arms a new one; only a task that fires without
//! having been replaced runs a pass. The timer itself belongs to the event
//! loop: this type decides, the caller performs.

use vstd::prelude::*;

verus! {

/// Quiet period, in milliseconds, after which an armed task fires.
pub const QUIET_PERIOD_MS: u64 = 30;

/// The decisions' state for one document.
pub struct DebounceScheduler {
    pending: Option<u64>,
    next_token: u64,
    open: bool,
}

/// The abstract state of a scheduler.
pub struct DebounceState {
    pub pending: Option<u64>,
    pub next_token: u64,
    pub open: bool,
}

impl View for DebounceScheduler {
    type V = DebounceState;

    closed spec fn view(&self) -> DebounceState {
        DebounceState { pending: self.pending, next_token: self.next_token, open: self.open }
    }
}

/// What an edit asks of the event loop: cancel the task `cancel` if there is
/// one, then arm a task identified by `token` to fire after the quiet
/// period.
#[derive(Clone, Copy, Debug, PartialEq, Eq, Structural)]
pub struct Arm {
    pub cancel: Option<u64>,
    pub token: u64,
}

/// The state after an edit: a new task replaces any pending one; a closed
/// document arms nothing.
pub open spec fn after_edit(s: DebounceState) -> DebounceState {
    if s.open {
        DebounceState {
            pending: Some(s.next_token),
            next_token: (if s.next_token == u64::MAX { 0 } else { s.next_token + 1 }) as u64,
            open: true,
        }
    } else {
        s
    }
}

/// Whether the task `token` runs a pass when it fires: only the pending
/// task of an open document does.
pub open spec fn fire_runs(s: DebounceState, token: u64) -> bool {
    s.open && s.pending == Some(token)
}

/// The state after task `token` fires: a task that runs clears the handle.
pub open spec fn after_fire(s: DebounceState, token: u64) -> DebounceState {
    if fire_runs(s, token) {
        DebounceState { pending: None, ..s }
    } else {
        s
    }
}

/// The state after `n` edits in a row.
pub open spec fn after_edits(s: DebounceState, n: nat) -> DebounceState
    decreases n,
{
    if n == 0 {
        s
    } else {
        after_edit(after_edits(s, (n - 1) as nat))
    }
}

/// How many passes run when the tasks `tokens` fire in turn, and the state
/// after them.
pub open spec fn fire_all(s: DebounceState, tokens: Seq<u64>) -> (DebounceState, nat)
    decreases tokens.len(),
{
    if tokens.len() == 0 {
        (s, 0)
    } else {
        let (last, runs) = fire_all(s, tokens.drop_last());
        (after_fire(last, tokens.last()), runs + if fire_runs(last, tokens.last()) { 1nat } else { 0nat })
    }
}

impl DebounceScheduler {
    /// A scheduler for an open document with no pending task.
    pub fn new() -> (r: Self)
        ensures
            r@ == (DebounceState { pending: None, next_token: 0, open: true }),
    {
        DebounceScheduler { pending: None, next_token: 0, open: true }
    }

    /// Whether a task is armed and not yet fired.
    pub fn is_pending(&self) -> (r: bool)
        ensures
            r == self@.pending is Some,
    {
        self.pending.is_some()
    }

    /// An edit arrived: cancel the pending task and arm a new one.
    pub fn on_edit(&mut self) -> (r: Option<Arm>)
        ensures
            final(self)@ == after_edit(old(self)@),
            old(self)@.open ==> r == Some(Arm { cancel: old(self)@.pending, token: old(self)@.next_token }),
            !old(self)@.open ==> r is None,
    {
        if !self.open {
            return None;
        }
        let token = self.next_token;
        let cancel = self.pending;
        self.pending = Some(token);
        self.next_token = if token == u64::MAX { 0 } else { token + 1 };
        Some(Arm { cancel, token })
    }

    /// Task `token` fired: whether to run the highlighting pass now.
    pub fn on_fire(&mut self, token: u64) -> (r: bool)
        ensures
            r == fire_runs(old(self)@, token),
            final(self)@ == after_fire(old(self)@, token),
    {
        if self.open && self.pending == Some(token) {
            self.pending = None;
            true
        } else {
            false
        }
    }

    /// The document closed: returns the task to cancel, and no later fire
    /// runs a pass.
    pub fn close(&mut self) -> (r: Option<u64>)
        ensures
            r == old(self)@.pending,
            final(self)@ == (DebounceState { pending: None, next_token: old(self)@.next_token, open: false }),
    {
        let r = self.pending;
        self.pending = None;
        self.open = false;
        r
    }
}

proof fn lemma_edits_arm(s: DebounceState, n: nat)
    requires
        s.open,
        n >= 1,
    ensures
        after_edits(s, n).open,
        after_edits(s, n).pending is Some,
    decreases n,
{
    if n > 1 {
        lemma_edits_arm(s, (n - 1) as nat);
    } else {
        assert(after_edits(s, 0) == s);
    }
}

proof fn lemma_fire_all_count(s: DebounceState, tokens: Seq<u64>)
    ensures
        fire_all(s, tokens).1 <= 1,
        fire_all(s, tokens).1 == 1 ==> fire_all(s, tokens).0.pending is None,
        fire_all(s, tokens).1 == 0 ==> fire_all(s, tokens).0 == s,
        s.pending matches Some(t) && tokens.contains(t) && s.open ==> fire_all(s, tokens).1 == 1,
    decreases tokens.len(),
{
    if tokens.len() > 0 {
        let prefix = tokens.drop_last();
        lemma_fire_all_count(s, prefix);
        if let Some(t) = s.pending {
            if tokens.contains(t) && s.open && fire_all(s, prefix).1 == 0 {
                let i = choose|i: int| 0 <= i < tokens.len() && tokens[i] == t;
                if i < tokens.len() - 1 {
                    assert(prefix[i] == t);
                    assert(prefix.contains(t));
                }
            }
        }
    }
}

/// However many edits arrive before the quiet period ends, at most one
/// highlighting pass runs, whichever of the tasks they armed fire and in
/// whatever order; and the pass does run once the last armed task fires.
pub proof fn lemma_burst_single_pass(s: DebounceState, n: nat, fired: Seq<u64>)
    requires
        s.open,
        n >= 1,
    ensures
        fire_all(after_edits(s, n), fired).1 <= 1,
        fired.contains(after_edits(s, n).pending->0) ==> fire_all(after_edits(s, n), fired).1 == 1,
{
    lemma_edits_arm(s, n);
    lemma_fire_all_count(after_edits(s, n), fired);
}

} // verus!
