use vstd::prelude::*;

verus! {

/// The visibility of a literal inside a circuit.
#[derive(Clone, Copy, Debug, PartialEq, Eq, Structural)]
pub enum Mode {
    Constant,
    Public,
    Private,
}

/// Position of a mode in the order `Constant < Public < Private`.
pub open spec fn rank(m: Mode) -> nat {
    match m {
        Mode::Constant => 0,
        Mode::Public => 1,
        Mode::Private => 2,
    }
}

/// The larger of two modes.
pub open spec fn max_mode(a: Mode, b: Mode) -> Mode {
    if rank(a) >= rank(b) {
        a
    } else {
        b
    }
}

impl Mode {
    /// Returns the larger of the two modes.
    pub fn max(self, other: Mode) -> (r: Mode)
        ensures
            r == max_mode(self, other),
    {
        match (self, other) {
            (Mode::Private, _) => Mode::Private,
            (_, Mode::Private) => Mode::Private,
            (Mode::Public, _) => Mode::Public,
            (_, Mode::Public) => Mode::Public,
            _ => Mode::Constant,
        }
    }
}

} // verus!
