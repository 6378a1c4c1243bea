//! A tracker that notices when a value has moved in memory.
//!
//! The tracker stores the address it was last seen at, as a plain number.
//! Taking the address of a value is beyond the verifier, so the caller
//! passes the current address in; the tracker records it on first sight and
//! afterwards insists that a new address differs from the recorded one,
//! which is what a move guarantees.

use vstd::prelude::*;

verus! {

/// Remembers the address a value was last checked at, once one was seen.
pub struct AddrTracker(pub Option<usize>);

impl Default for AddrTracker {
    /// A fresh tracker has seen no address yet.
    fn default() -> (r: Self)
        ensures
            r.0 is None,
    {
        AddrTracker(None)
    }
}

impl AddrTracker {
    /// On first sight, records the current address; on every later sight the
    /// value must have moved, so the current address must differ from the
    /// recorded one, which stays recorded.
    pub fn check_for_move(&mut self, current_addr: usize)
        requires
            old(self).0 matches Some(prev) ==> prev != current_addr,
        ensures
            old(self).0 is None ==> final(self).0 == Some(current_addr),
            old(self).0 is Some ==> final(self).0 == old(self).0,
    {
        match self.0 {
            None => {
                self.0 = Some(current_addr);
            },
            Some(_) => {},
        }
    }
}

} // verus!
