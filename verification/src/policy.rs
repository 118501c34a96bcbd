//! The timers, efforts and bounds of the scheduling policy.
use vstd::prelude::*;
use crate::text::str_eq;

verus! {

pub const N_TIMERS: usize = 6;
pub const N_EFFORTS: usize = 8;
pub const DEFAULT_OBS_TICKS: u64 = 0x80_0000;
pub const DEFAULT_DEC_TICKS: u64 = 0x800_0000;

/// The six timers whose next fire the policy moves.
#[derive(Clone, Copy, PartialEq, Eq, Debug, Structural)]
pub enum Timer {
    Probe,
    Eliminate,
    Reduce,
    Rephase,
    Reorder,
    Mode,
}

/// The name of a timer as a kissat limit name.
pub open spec fn timer_name(t: Timer) -> Seq<char> {
    match t {
        Timer::Probe => "probe"@,
        Timer::Eliminate => "eliminate"@,
        Timer::Reduce => "reduce"@,
        Timer::Rephase => "rephase"@,
        Timer::Reorder => "reorder"@,
        Timer::Mode => "mode"@,
    }
}

impl Timer {
    /// The timer's limit name.
    pub fn name(self) -> (r: &'static str)
        ensures
            r@ == timer_name(self),
    {
        match self {
            Timer::Probe => "probe",
            Timer::Eliminate => "eliminate",
            Timer::Reduce => "reduce",
            Timer::Rephase => "rephase",
            Timer::Reorder => "reorder",
            Timer::Mode => "mode",
        }
    }

    /// The timer behind a limit name; `None` for names the policy does not move.
    pub fn from_name(name: &str) -> (r: Option<Timer>)
        ensures
            r matches Some(t) ==> timer_name(t) == name@,
            r is None ==> forall|t: Timer| timer_name(t) != name@,
    {
        if str_eq(name, "probe") {
            Some(Timer::Probe)
        } else if str_eq(name, "eliminate") {
            Some(Timer::Eliminate)
        } else if str_eq(name, "reduce") {
            Some(Timer::Reduce)
        } else if str_eq(name, "rephase") {
            Some(Timer::Rephase)
        } else if str_eq(name, "reorder") {
            Some(Timer::Reorder)
        } else if str_eq(name, "mode") {
            Some(Timer::Mode)
        } else {
            proof {
                assert forall|t: Timer| timer_name(t) != name@ by {
                    match t {
                        Timer::Probe => {},
                        Timer::Eliminate => {},
                        Timer::Reduce => {},
                        Timer::Rephase => {},
                        Timer::Reorder => {},
                        Timer::Mode => {},
                    }
                }
            }
            None
        }
    }
}

/// Timer names are distinct, so looking a timer up by its own name gives
/// the timer back.
pub proof fn lemma_timer_names_distinct(s: Timer, t: Timer)
    ensures
        timer_name(s) == timer_name(t) ==> s == t,
{
    reveal_strlit("probe");
    reveal_strlit("eliminate");
    reveal_strlit("reduce");
    reveal_strlit("rephase");
    reveal_strlit("reorder");
    reveal_strlit("mode");
    if timer_name(s) == timer_name(t) && s != t {
        assert(timer_name(s).len() == timer_name(t).len());
        assert(timer_name(s)[2] == timer_name(t)[2]);
        assert(false);
    }
}

/// The per-pass effort knobs.
#[derive(Clone, Copy, PartialEq, Eq, Debug, Structural)]
pub enum Effort {
    Sweep,
    Vivify,
    Eliminate,
    Backbone,
    Factor,
    Forward,
    Transitive,
    Walk,
}

/// The elimination-bound choice.
#[derive(Clone, Copy, PartialEq, Eq, Debug, Structural)]
pub enum ElimBound {
    Hold,
    Stock,
    Escalate,
}

/// Per-timer bookkeeping: the clock at the last fire, the stock delta
/// computed then, and the number of fires.
#[derive(Clone, Copy, Debug)]
pub struct TimerState {
    pub last_fire: u64,
    pub stock_delta: u64,
    pub fires: u64,
}

/// The rail on any effective interval: a tenth of the stock delta.
pub fn interval_floor(stock_delta: u64) -> (r: u64)
    ensures
        r == stock_delta / 10,
{
    stock_delta / 10
}

} // verus!
