//! Decision frames, one per decision level.
use vstd::prelude::*;

verus! {

/// A decision frame: whether it is promoted, the decision literal, the trail
/// height at the decision, and a usage counter.
#[derive(Clone, Copy, Default)]
pub struct Frame {
    pub promote: bool,
    pub decision: u32,
    pub trail: u32,
    pub used: u32,
}

/// Opens a new frame for `decision` at the current trail height.
pub fn push_frame(frames: &mut Vec<Frame>, trail: u32, decision: u32)
    ensures
        final(frames)@ == old(frames)@.push(Frame { promote: false, decision, trail, used: 0 }),
{
    frames.push(Frame { decision, promote: false, trail, used: 0 });
}

} // verus!
