//! Which core of the processor runs.

use vstd::prelude::*;

verus! {

/// The number of a core.
#[derive(Copy, Clone, Debug, PartialEq, Eq, Structural)]
pub enum CoreNo {
    Core0,
    Core1,
    Core2,
    Core3,
}

impl CoreNo {
    /// The number as an integer.
    pub open spec fn number(self) -> int {
        match self {
            CoreNo::Core0 => 0,
            CoreNo::Core1 => 1,
            CoreNo::Core2 => 2,
            CoreNo::Core3 => 3,
        }
    }
}

/// The core that a value of the multiprocessor affinity register names:
/// the number in its two lowest bits.
pub fn core_of_affinity(mpidr: u64) -> (r: CoreNo)
    ensures
        r.number() == mpidr % 4,
{
    let nr = mpidr & 0b11;
    proof {
        assert(nr == mpidr % 4) by (bit_vector)
            requires
                nr == mpidr & 0b11,
        ;
    }
    if nr == 0 {
        CoreNo::Core0
    } else if nr == 1 {
        CoreNo::Core1
    } else if nr == 2 {
        CoreNo::Core2
    } else {
        CoreNo::Core3
    }
}

} // verus!
