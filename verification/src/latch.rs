//! A guard against entering the firmware's state a second time while a first
//! entry has not returned: the memory map and the identity map are changed by
//! one caller at a time, and a second one is turned away at once instead of
//! finding them half changed.

use vstd::prelude::*;

verus! {

/// The guard: held from an entry to the leave that follows it.
pub struct Latch {
    held: bool,
}

impl Latch {
    /// Whether an entry has not been left yet.
    pub closed spec fn is_held(&self) -> bool {
        self.held
    }

    /// A guard that nobody holds.
    pub fn new() -> (l: Latch)
        ensures
            !l.is_held(),
    {
        Latch { held: false }
    }

    /// Enters, unless an earlier entry has not been left: says whether the
    /// caller may go on. The guard is held afterwards in either case.
    pub fn try_enter(&mut self) -> (entered: bool)
        ensures
            entered == !old(self).is_held(),
            final(self).is_held(),
    {
        let entered = !self.held;
        self.held = true;
        entered
    }

    /// Leaves: the next entry succeeds.
    pub fn leave(&mut self)
        ensures
            !final(self).is_held(),
    {
        self.held = false;
    }
}

} // verus!
