use vstd::prelude::*;

verus! {

/// How many fixed steps an update runs.
#[derive(Clone, Copy, Debug, PartialEq, Eq, Structural)]
pub enum UpdateSteps {
    /// The first update: it only starts the clock.
    Initial,
    /// The steps that the time elapsed allows.
    Update(usize),
    /// More steps were due than allowed: the limit.
    Clamped(usize),
}

impl UpdateSteps {
    pub open spec fn spec_count(&self) -> usize {
        match *self {
            UpdateSteps::Initial => 0,
            UpdateSteps::Update(count) => count,
            UpdateSteps::Clamped(count) => count,
        }
    }

    pub fn count(&self) -> (r: usize)
        ensures
            r == self.spec_count(),
    {
        match *self {
            UpdateSteps::Initial => 0,
            UpdateSteps::Update(count) => count,
            UpdateSteps::Clamped(count) => count,
        }
    }
}

} // verus!
