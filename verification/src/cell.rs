use vstd::prelude::*;

verus! {

/// The tri-state value of one board cell: undetermined, confirmed filled,
/// or confirmed empty. No other states exist.
#[derive(Clone, Copy, Debug, PartialEq, Eq, Structural)]
pub enum Cell {
    Unknown,
    Block,
    Void,
}

/// The error a constructor or line solver reports when a line's hints
/// cannot fit its length.
#[derive(Clone, Copy, Debug, PartialEq, Eq, Structural)]
pub enum SolveError {
    InconsistentPuzzle,
}

} // verus!
