//! How the collision demo rates its frame rate.
use vstd::prelude::*;

verus! {

/// The colour of the frame-rate readout.
#[derive(Clone, Copy, PartialEq, Eq, Debug)]
pub enum FpsBand {
    /// Under 30 frames per second.
    Red,
    /// From 30 to 59 frames per second.
    Gold,
    /// 60 frames per second or more.
    Green,
}

/// The band of a whole number of frames per second.
pub fn fps_band(fps: u32) -> (r: FpsBand)
    ensures
        r == (if fps <= 29 {
            FpsBand::Red
        } else if fps <= 59 {
            FpsBand::Gold
        } else {
            FpsBand::Green
        }),
{
    if fps <= 29 {
        FpsBand::Red
    } else if fps <= 59 {
        FpsBand::Gold
    } else {
        FpsBand::Green
    }
}

} // verus!
