//! Unit roots as exact fractions of a full turn.

use vstd::prelude::*;

verus! {

/// The unit root `e^(-2πi · turn / over)`.
#[derive(Clone, Copy, Debug, PartialEq, Eq, Structural)]
pub struct Twiddle {
    pub turn: usize,
    pub over: usize,
}

/// A `Twiddle` over the natural numbers.
pub struct UnitRoot {
    pub turn: nat,
    pub over: nat,
}

impl View for Twiddle {
    type V = UnitRoot;

    open spec fn view(&self) -> UnitRoot {
        UnitRoot { turn: self.turn as nat, over: self.over as nat }
    }
}

impl UnitRoot {
    /// The same root counted in `n`-ths of the circle, for a multiple `n` of
    /// `over`.
    pub open spec fn turn_in(self, n: nat) -> nat {
        self.turn * (n / self.over)
    }

    /// The root in machine integers.
    pub open spec fn as_twiddle(self) -> Twiddle {
        Twiddle { turn: self.turn as usize, over: self.over as usize }
    }
}

} // verus!
