//! Search limits, enabled passes and the delays of inprocessing passes.
use vstd::prelude::*;

verus! {

#[derive(Clone, Copy, Default)]
pub struct BoundsEliminate {
    pub max_bound_completed: u64,
    pub additional_clauses: u32,
}

#[derive(Clone, Copy, Default)]
pub struct Bounds {
    pub eliminate: BoundsEliminate,
}

#[derive(Clone, Copy, Default)]
pub struct ModeLimits {
    pub count: u64,
    pub ticks: u64,
    pub conflicts: u64,
}

#[derive(Clone, Copy, Default)]
pub struct EliminateVariableLimits {
    pub eliminate: u64,
    pub subsume: u64,
}

#[derive(Clone, Copy, Default)]
pub struct EliminateLimits {
    pub variables: EliminateVariableLimits,
    pub conflicts: u64,
}

#[derive(Clone, Copy, Default)]
pub struct FactorLimits {
    pub marked: u64,
}

#[derive(Clone, Copy, Default)]
pub struct ConflictLimit {
    pub conflicts: u64,
}

#[derive(Clone, Copy, Default)]
pub struct GlueLimits {
    pub conflicts: u64,
    pub interval: u64,
}

#[derive(Clone, Copy, Default)]
pub struct Limits {
    pub conflicts: u64,
    pub decisions: u64,
    pub reports: u64,
    pub mode: ModeLimits,
    pub eliminate: EliminateLimits,
    pub factor: FactorLimits,
    pub probe: ConflictLimit,
    pub randec: ConflictLimit,
    pub reduce: ConflictLimit,
    pub reorder: ConflictLimit,
    pub rephase: ConflictLimit,
    pub restart: ConflictLimit,
    pub glue: GlueLimits,
}

#[derive(Clone, Copy, Default)]
pub struct Limited {
    pub conflicts: bool,
    pub decisions: bool,
}

#[derive(Clone, Copy, Default)]
pub struct Enabled {
    pub eliminate: bool,
    pub focus: bool,
    pub mode: bool,
    pub probe: bool,
}

/// A delay: how many more times a pass is skipped, and the current interval.
#[derive(Clone, Copy, Default)]
pub struct Delay {
    pub count: u32,
    pub current: u32,
}

#[derive(Clone, Copy, Default)]
pub struct Delays {
    pub bumpreasons: Delay,
    pub congruence: Delay,
    pub sweep: Delay,
    pub vivifyirr: Delay,
}

#[derive(Clone, Copy, Default)]
pub struct RememberTicks {
    pub eliminate: u64,
    pub probe: u64,
}

#[derive(Clone, Copy, Default)]
pub struct RememberConflicts {
    pub reduce: u64,
}

#[derive(Clone, Copy, Default)]
pub struct Remember {
    pub ticks: RememberTicks,
    pub conflicts: RememberConflicts,
}

/// Selects one of the four delays.
#[derive(Clone, Copy, PartialEq, Eq, Structural)]
pub enum DelayId {
    Bumpreasons,
    Congruence,
    Sweep,
    Vivifyirr,
}

/// The delay selected by `which`.
pub open spec fn delay_of(delays: Delays, which: DelayId) -> Delay {
    match which {
        DelayId::Bumpreasons => delays.bumpreasons,
        DelayId::Congruence => delays.congruence,
        DelayId::Sweep => delays.sweep,
        DelayId::Vivifyirr => delays.vivifyirr,
    }
}

/// `delays` with the delay selected by `which` replaced by `d`.
pub open spec fn with_delay(delays: Delays, which: DelayId, d: Delay) -> Delays {
    match which {
        DelayId::Bumpreasons => Delays { bumpreasons: d, ..delays },
        DelayId::Congruence => Delays { congruence: d, ..delays },
        DelayId::Sweep => Delays { sweep: d, ..delays },
        DelayId::Vivifyirr => Delays { vivifyirr: d, ..delays },
    }
}

fn get_delay(delays: &Delays, which: DelayId) -> (r: Delay)
    ensures
        r == delay_of(*delays, which),
{
    match which {
        DelayId::Bumpreasons => delays.bumpreasons,
        DelayId::Congruence => delays.congruence,
        DelayId::Sweep => delays.sweep,
        DelayId::Vivifyirr => delays.vivifyirr,
    }
}

fn put_delay(delays: &mut Delays, which: DelayId, d: Delay)
    ensures
        *final(delays) == with_delay(*old(delays), which, d),
{
    match which {
        DelayId::Bumpreasons => delays.bumpreasons = d,
        DelayId::Congruence => delays.congruence = d,
        DelayId::Sweep => delays.sweep = d,
        DelayId::Vivifyirr => delays.vivifyirr = d,
    }
}

/// The text that names a delayed pass in messages.
pub fn delay_description(which: DelayId) -> (r: &'static str)
    ensures
        r@ == (match which {
            DelayId::Bumpreasons => "bumping reason side literals"@,
            DelayId::Congruence => "congruence closure"@,
            DelayId::Sweep => "sweeping"@,
            DelayId::Vivifyirr => "vivifying irredundant clauses"@,
        }),
{
    match which {
        DelayId::Bumpreasons => "bumping reason side literals",
        DelayId::Congruence => "congruence closure",
        DelayId::Sweep => "sweeping",
        DelayId::Vivifyirr => "vivifying irredundant clauses",
    }
}

/// Halves the interval of a delay (when it is not zero) and restarts the
/// count at the new interval.
pub fn reduce_delay(delays: &mut Delays, which: DelayId)
    ensures
        ({
            let d = delay_of(*old(delays), which);
            *final(delays) == if d.current == 0 {
                *old(delays)
            } else {
                with_delay(*old(delays), which, Delay { count: d.current / 2, current: d.current / 2 })
            }
        }),
{
    let d = get_delay(delays, which);
    if d.current == 0 {
        return;
    }
    let current = d.current / 2;
    put_delay(delays, which, Delay { count: current, current });
}

/// Increases the interval of a delay by one (saturating) and restarts the
/// count at the new interval.
pub fn bump_delay(delays: &mut Delays, which: DelayId)
    ensures
        ({
            let d = delay_of(*old(delays), which);
            let c = if d.current < u32::MAX { (d.current + 1) as u32 } else { d.current };
            *final(delays) == with_delay(*old(delays), which, Delay { count: c, current: c })
        }),
{
    let d = get_delay(delays, which);
    let current: u32 = if d.current < u32::MAX { d.current + 1 } else { d.current };
    put_delay(delays, which, Delay { count: current, current });
}

/// Whether the pass is still delayed; a pending delay is used up by one.
pub fn delaying(delays: &mut Delays, which: DelayId) -> (r: bool)
    ensures
        ({
            let d = delay_of(*old(delays), which);
            &&& r == (d.count != 0)
            &&& *final(delays) == if d.count != 0 {
                with_delay(*old(delays), which, Delay { count: (d.count - 1) as u32, current: d.current })
            } else {
                *old(delays)
            }
        }),
{
    let d = get_delay(delays, which);
    if d.count != 0 {
        put_delay(delays, which, Delay { count: d.count - 1, current: d.current });
        true
    } else {
        false
    }
}

/// After a bump, a pass is delayed exactly `current` times before it runs
/// again.
pub proof fn lemma_bump_then_delaying(delays: Delays, which: DelayId)
    ensures
        ({
            let d = delay_of(delays, which);
            let c = if d.current < u32::MAX { (d.current + 1) as u32 } else { d.current };
            let bumped = with_delay(delays, which, Delay { count: c, current: c });
            delay_of(bumped, which).count == c && c >= 1
        }),
{
}

} // verus!
