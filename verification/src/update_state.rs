//! The guard that gates tree reads while a synchronization attempt is in
//! flight.
//!
//! The guard holds a single `updating` flag. It starts clear, the
//! synchronization loop sets it immediately before an attempt and clears it
//! immediately after, and readers skip indexing entirely while it is set.
//! The flag only ever changes through these two methods, so once cleared it
//! stays clear until the next attempt begins. Sharing the guard between the
//! single writer and concurrent readers is the caller's affair (a
//! multiple-reader, single-writer lock around the value).

use vstd::prelude::*;

verus! {

/// Process-wide state of the synchronization loop: whether an attempt is
/// currently in flight.
pub struct UpdateState {
    is_updating: bool,
}

impl UpdateState {
    /// A fresh guard: no update in flight.
    pub fn new() -> (s: Self)
        ensures
            !s.spec_updating(),
    {
        UpdateState { is_updating: false }
    }

    pub closed spec fn spec_updating(&self) -> bool {
        self.is_updating
    }

    /// Whether a synchronization attempt is in flight.
    pub fn updating(&self) -> (r: bool)
        ensures
            r == self.spec_updating(),
    {
        self.is_updating
    }

    /// Marks the start of a synchronization attempt.
    pub fn begin_update(&mut self)
        ensures
            final(self).spec_updating(),
    {
        self.is_updating = true;
    }

    /// Marks the end of a synchronization attempt, whatever its outcome.
    pub fn end_update(&mut self)
        ensures
            !final(self).spec_updating(),
    {
        self.is_updating = false;
    }
}

} // verus!
