//! Connection-count accounting shared by every transport's accept path.

use vstd::prelude::*;

verus! {

/// A place among the active connections: the count is raised by the acceptor
/// before the permit is built, and lowered again when the permit is given back
/// at the connection's end. This is how concurrent connections (and thus total
/// preallocated queue memory) are bounded.
#[derive(Debug)]
pub struct ConnPermit {
    /// The count its holder was admitted at.
    pub admitted: usize,
}

impl ConnPermit {
    /// Wrap an already-raised count.
    pub fn new(counter: usize) -> (r: ConnPermit)
        requires
            counter > 0,
        ensures
            r.admitted == counter,
    {
        ConnPermit { admitted: counter }
    }

    /// Give the place back: `counter` is lowered by one.
    pub fn release(self, counter: &mut usize)
        requires
            *old(counter) > 0,
        ensures
            *final(counter) == *old(counter) - 1,
    {
        *counter = *counter - 1;
    }
}

} // verus!
