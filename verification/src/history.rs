//! Undo and redo: snapshots of the editable state on two stacks.
use vstd::prelude::*;

verus! {

/// Most snapshots kept for undo.
pub const HISTORY_LIMIT: usize = 50;

/// The undo and redo stacks; the top of each stack is its last element.
pub struct History<S> {
    pub undo_stack: Vec<S>,
    pub redo_stack: Vec<S>,
}

/// The stacks of a history as sequences: (undo, redo).
pub type Stacks<S> = (Seq<S>, Seq<S>);

impl<S> History<S> {
    /// The undo and redo stacks.
    pub open spec fn stacks(&self) -> Stacks<S> {
        (self.undo_stack@, self.redo_stack@)
    }

    /// An empty history.
    pub fn new() -> (h: Self)
        ensures
            h.stacks() == (Seq::<S>::empty(), Seq::<S>::empty()),
    {
        History { undo_stack: Vec::new(), redo_stack: Vec::new() }
    }

    /// Records `current` before a change: it goes on top of the undo stack,
    /// the oldest snapshot is dropped beyond the limit, and redo is cleared.
    pub fn save_snapshot(&mut self, current: S)
        ensures
            final(self).stacks() == saved(old(self).stacks(), current),
    {
        self.undo_stack.push(current);
        if self.undo_stack.len() > HISTORY_LIMIT {
            self.undo_stack.remove(0);
        }
        self.redo_stack.clear();
    }

    /// Steps back: returns the snapshot on top of the undo stack, keeping
    /// `current` for redo; with nothing to undo, returns `current` unchanged.
    pub fn undo(&mut self, current: S) -> (restored: S)
        ensures
            (final(self).stacks(), restored) == undone(old(self).stacks(), current),
    {
        match self.undo_stack.pop() {
            Some(snapshot) => {
                self.redo_stack.push(current);
                snapshot
            },
            None => current,
        }
    }

    /// Steps forward again: returns the snapshot on top of the redo stack,
    /// keeping `current` for undo; with nothing to redo, returns `current`.
    pub fn redo(&mut self, current: S) -> (restored: S)
        ensures
            (final(self).stacks(), restored) == redone(old(self).stacks(), current),
    {
        match self.redo_stack.pop() {
            Some(snapshot) => {
                self.undo_stack.push(current);
                snapshot
            },
            None => current,
        }
    }

    /// Forgets all snapshots.
    pub fn clear(&mut self)
        ensures
            final(self).stacks() == (Seq::<S>::empty(), Seq::<S>::empty()),
    {
        self.undo_stack.clear();
        self.redo_stack.clear();
    }
}

/// The stacks after saving `s`.
pub open spec fn saved<S>(h: Stacks<S>, s: S) -> Stacks<S> {
    let u = h.0.push(s);
    (if u.len() > HISTORY_LIMIT {
        u.subrange(1, u.len() as int)
    } else {
        u
    }, Seq::empty())
}

/// The stacks after undoing from state `cur`, and the state restored.
pub open spec fn undone<S>(h: Stacks<S>, cur: S) -> (Stacks<S>, S) {
    if h.0.len() == 0 {
        (h, cur)
    } else {
        ((h.0.drop_last(), h.1.push(cur)), h.0.last())
    }
}

/// The stacks after redoing from state `cur`, and the state restored.
pub open spec fn redone<S>(h: Stacks<S>, cur: S) -> (Stacks<S>, S) {
    if h.1.len() == 0 {
        (h, cur)
    } else {
        ((h.0.push(cur), h.1.drop_last()), h.1.last())
    }
}

/// Undo right after saving `s` gives `s` back, and what was current then
/// becomes the only redo step.
pub proof fn lemma_undo_restores_saved<S>(h: Stacks<S>, s: S, t: S)
    ensures
        undone(saved(h, s), t).1 == s,
        undone(saved(h, s), t).0.1 == seq![t],
{
    let u = h.0.push(s);
    if u.len() > HISTORY_LIMIT {
        assert(u.subrange(1, u.len() as int).last() == s);
    }
    assert(Seq::<S>::empty().push(t) =~= seq![t]);
}

/// Redo right after an undo returns to the state and the stacks before the undo.
pub proof fn lemma_redo_reverts_undo<S>(h: Stacks<S>, t: S)
    requires
        h.0.len() > 0,
    ensures
        redone(undone(h, t).0, undone(h, t).1) == (h, t),
{
    assert(h.0.drop_last().push(h.0.last()) =~= h.0);
    assert(h.1.push(t).drop_last() =~= h.1);
}

/// Undo right after a redo returns to the state and the stacks before the redo.
pub proof fn lemma_undo_reverts_redo<S>(h: Stacks<S>, t: S)
    requires
        h.1.len() > 0,
    ensures
        undone(redone(h, t).0, redone(h, t).1) == (h, t),
{
    assert(h.1.drop_last().push(h.1.last()) =~= h.1);
    assert(h.0.push(t).drop_last() =~= h.0);
}

/// With nothing to undo, undo changes nothing; likewise for redo.
pub proof fn lemma_empty_steps_do_nothing<S>(h: Stacks<S>, t: S)
    ensures
        h.0.len() == 0 ==> undone(h, t) == (h, t),
        h.1.len() == 0 ==> redone(h, t) == (h, t),
{
}

/// At most `HISTORY_LIMIT` snapshots are held on the two stacks together,
/// starting from an empty history, whatever is saved, undone or redone.
pub open spec fn within_limit<S>(h: Stacks<S>) -> bool {
    h.0.len() + h.1.len() <= HISTORY_LIMIT
}

/// Saving, undoing and redoing keep the history within the limit.
pub proof fn lemma_history_bounded<S>(h: Stacks<S>, s: S)
    requires
        within_limit(h),
    ensures
        within_limit(saved(h, s)),
        within_limit(undone(h, s).0),
        within_limit(redone(h, s).0),
{
}

} // verus!
