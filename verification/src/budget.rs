//! A budget of steps for a search that may not end: counted, and then the
//! search gives up when it is spent, or endless, where it is known
//! beforehand how many steps suffice.

use vstd::prelude::*;

verus! {

/// A budget of steps.
pub enum Budget {
    /// So many steps may be made.
    Counted(usize),
    /// As many steps may be made as are needed; how many that are at
    /// most is known to the proof only.
    Endless(Ghost<nat>),
}

impl Budget {
    /// The number of steps that may still be made.
    pub open spec fn fuel(self) -> nat {
        match self {
            Budget::Counted(n) => n as nat,
            Budget::Endless(g) => g@,
        }
    }

    /// The budget once more.
    pub fn again(&self) -> (same: Budget)
        ensures
            same == *self,
    {
        match self {
            Budget::Counted(n) => Budget::Counted(*n),
            Budget::Endless(g) => Budget::Endless(Ghost(g@)),
        }
    }

    /// The budget after one step, or `None` where a counted budget is spent.
    pub fn spend(&self) -> (left: Option<Budget>)
        requires
            *self is Endless ==> self.fuel() > 0,
        ensures
            match left {
                Some(b) => self.fuel() > 0 && b.fuel() == self.fuel() - 1 && (b is Endless
                    <==> *self is Endless),
                None => self.fuel() == 0 && *self is Counted,
            },
    {
        match self {
            Budget::Counted(n) => {
                if *n == 0 {
                    None
                } else {
                    Some(Budget::Counted(*n - 1))
                }
            },
            Budget::Endless(g) => Some(Budget::Endless(Ghost((g@ - 1) as nat))),
        }
    }
}

} // verus!
