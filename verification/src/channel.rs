use vstd::prelude::*;

use crate::configuration::Movement;

verus! {

/// The single-slot move channel between the searching side and its
/// supervisor: write-only from the search, read-only from the reader,
/// the latest stored movement wins, nothing queues, and a store never
/// blocks. The slot's protocol is modelled here; carrying it across a
/// process boundary is the surrounding program's business.
pub struct AtomicMove {
    latest: Option<Movement>,
}

impl View for AtomicMove {
    type V = Option<Movement>;

    closed spec fn view(&self) -> Option<Movement> {
        self.latest
    }
}

impl AtomicMove {
    /// Bind to a fresh, empty slot.
    pub fn connect() -> (r: AtomicMove)
        ensures
            r@ is None,
    {
        AtomicMove { latest: None }
    }

    /// Overwrite the slot unconditionally: the last write wins, whatever
    /// it held before.
    pub fn store(&mut self, m: Option<Movement>)
        ensures
            final(self)@ == m,
    {
        self.latest = m;
    }

    /// What the slot currently holds: the latest complete store, never
    /// a partial value.
    pub fn load(&self) -> (r: Option<Movement>)
        ensures
            r == self@,
    {
        self.latest
    }
}

} // verus!
