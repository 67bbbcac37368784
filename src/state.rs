use vstd::prelude::*;

verus! {

/// A point of the sampling space: an energy (in the library's integer
/// energy unit) and a particle count.
#[derive(Debug, Clone, Copy, PartialEq, Eq, Structural)]
pub struct State {
    /// The energy.
    pub energy: i64,
    /// The number of particles.
    pub count: usize,
}

impl State {
    /// The state with the given energy and particle count.
    pub fn new(energy: i64, count: usize) -> (r: State)
        ensures
            r.energy == energy,
            r.count == count,
    {
        State { energy, count }
    }
}

} // verus!
