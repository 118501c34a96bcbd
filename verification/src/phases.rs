//! Saved decision phases.
use vstd::prelude::*;

verus! {

/// The best, saved and target phase of each variable.
pub struct Phases {
    pub best: Vec<i8>,
    pub saved: Vec<i8>,
    pub target: Vec<i8>,
}

/// The phase a variable gets when its positive literal has value `v`.
pub open spec fn saved_phase(old_phase: i8, v: i8) -> i8 {
    if v != 0 { v } else { old_phase }
}

/// Copies the value of each assigned variable (of its positive literal
/// `2 * i`) into `phases[i]`; unassigned variables keep their phase.
pub fn save_phases(values: &Vec<i8>, phases: &mut Vec<i8>)
    requires
        2 * old(phases)@.len() <= values@.len(),
    ensures
        final(phases)@.len() == old(phases)@.len(),
        forall|i: int|
            0 <= i < old(phases)@.len() ==> final(phases)@[i] == saved_phase(old(phases)@[i], values@[2 * i]),
{
    let n = phases.len();
    let vl = values.len();
    let mut i: usize = 0;
    while i < n
        invariant
            n == phases@.len(),
            n == old(phases)@.len(),
            2 * n <= values@.len(),
            vl == values@.len(),
            i <= n,
            forall|j: int| 0 <= j < i ==> phases@[j] == saved_phase(old(phases)@[j], values@[2 * j]),
            forall|j: int| i <= j < n ==> phases@[j] == old(phases)@[j],
        decreases n - i,
    {
        let tmp = values[2 * i];
        if tmp != 0 {
            phases[i] = tmp;
        }
        i += 1;
    }
}

} // verus!
