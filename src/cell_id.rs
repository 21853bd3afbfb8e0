//! Identifiers for cells.

use vstd::prelude::*;

verus! {

/// An identifier for a cell; never zero.
#[derive(Debug, Clone, Copy, PartialEq, Eq, Structural)]
pub struct CellId(usize);

impl CellId {
    pub closed spec fn value(self) -> usize {
        self.0
    }

    pub fn get(&self) -> (r: usize)
        ensures
            r == self.value(),
    {
        self.0
    }
}

/// Hands out identifiers in increasing order from one, staying at the largest
/// value once it is reached.
pub struct CellIdProvider {
    at: usize,
}

impl CellIdProvider {
    pub closed spec fn spec_at(&self) -> usize {
        self.at
    }

    pub fn new() -> (r: CellIdProvider)
        ensures
            r.spec_at() == 1,
    {
        Self { at: 1 }
    }

    /// The next identifier.
    pub fn next(&mut self) -> (r: CellId)
        requires
            old(self).spec_at() >= 1,
        ensures
            r.value() == old(self).spec_at(),
            r.value() >= 1,
            final(self).spec_at() == if old(self).spec_at() < usize::MAX {
                (old(self).spec_at() + 1) as usize
            } else {
                usize::MAX
            },
    {
        let id = CellId(self.at);
        self.at = self.at.saturating_add(1);
        id
    }
}

} // verus!
