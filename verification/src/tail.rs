//! The tail-follow state machine: what to read from a growing file, and
//! how rotation or truncation resets the read position.
//!
//! The surrounding loop watches the file and performs the reads; every
//! decision about offsets is made here.  The remembered length moves only
//! after a read completed, so an interrupted read can neither lose nor
//! duplicate lines past the last recorded boundary.

use vstd::prelude::*;

verus! {

/// What to do on one change notification.
#[derive(Debug, Clone, Copy, PartialEq, Eq, Structural)]
pub enum TailAction {
    /// The file grew: read the bytes from this offset to its end.
    ReadFrom(u64),
    /// The file shrank (rotation or truncation): reopen and start over.
    Reset,
    /// Nothing changed.
    Ignore,
}

/// The tailer's memory: how far the delivered content reaches.
pub struct TailState {
    pub last_size: u64,
}

impl TailState {
    /// Starts tailing a file of the given length: existing content is
    /// not replayed.
    pub fn new(initial_size: u64) -> (t: TailState)
        ensures
            t.last_size == initial_size,
    {
        TailState { last_size: initial_size }
    }

    /// Decides on a change notification from the file's current length.
    /// Growth asks for a read of exactly the appended range and leaves
    /// the remembered length where it is until the read completes; a
    /// shrink resets the remembered length to zero, so the next growth
    /// is read from the start of the new content.
    pub fn on_size(&mut self, current_size: u64) -> (a: TailAction)
        ensures
            (*final(self), a) == spec_on_size(*old(self), current_size),
    {
        if current_size > self.last_size {
            TailAction::ReadFrom(self.last_size)
        } else if current_size < self.last_size {
            self.last_size = 0;
            TailAction::Reset
        } else {
            TailAction::Ignore
        }
    }

    /// Records a completed read: the delivered content now reaches
    /// `new_size`.
    pub fn read_done(&mut self, new_size: u64)
        ensures
            final(self).last_size == new_size,
    {
        self.last_size = new_size;
    }
}

/// The decision on a change notification, as a function of the state and
/// the observed length: the new state and the action.
pub open spec fn spec_on_size(t: TailState, current_size: u64) -> (TailState, TailAction) {
    if current_size > t.last_size {
        (t, TailAction::ReadFrom(t.last_size))
    } else if current_size < t.last_size {
        (TailState { last_size: 0 }, TailAction::Reset)
    } else {
        (t, TailAction::Ignore)
    }
}

/// Law: after the tailed file shrank, the next growth is read from byte
/// offset zero of the new content, not from the old remembered offset.
pub proof fn lemma_rotation_restarts_at_zero(t: TailState, shrunk: u64, grown: u64)
    requires
        shrunk < t.last_size,
        grown > 0,
    ensures
        spec_on_size(spec_on_size(t, shrunk).0, grown).1 == TailAction::ReadFrom(0),
{
}

} // verus!
