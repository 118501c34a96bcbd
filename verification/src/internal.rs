//! Small records of the solver state.
use vstd::prelude::*;

verus! {

/// Reason of a decision.
pub const DECISION_REASON: u32 = 0xffff_ffff;
/// Reason of a unit.
pub const UNIT_REASON: u32 = 0xffff_fffe;
pub const INVALID_LEVEL: u32 = 0xffff_ffff;
pub const INVALID_TRAIL: u32 = 0xffff_ffff;

/// The assignment record of a variable.
#[derive(Clone, Copy, Default)]
pub struct Assigned {
    pub level: u32,
    pub trail: u32,
    pub analyzed: bool,
    pub binary: bool,
    pub poisoned: bool,
    pub removable: bool,
    pub shrinkable: bool,
    pub reason: u32,
}

/// Clause-size classification of the formula.
#[derive(Clone, Copy, Default)]
pub struct Classification {
    pub small: bool,
    pub bigbig: bool,
}

/// A datum with its rank.
#[derive(Clone, Copy, Default)]
pub struct Datarank {
    pub data: u32,
    pub rank: u32,
}

/// How an external variable is mapped inside the solver.
#[derive(Clone, Copy, Default)]
pub struct Import {
    pub lit: u32,
    pub extension: bool,
    pub imported: bool,
    pub eliminated: bool,
}

/// The termination request flag.
#[derive(Clone, Copy, Default)]
pub struct Termination {
    pub flagged: bool,
}

/// An empty placeholder for the embedded solver slot.
#[derive(Clone, Copy, Default)]
pub struct KittenStub;

} // verus!
