//! Which GPUs have which instructions.

use vstd::prelude::*;

verus! {

/// Whether a GPU has the warp-wide minimum and maximum of 32-bit floating-point values
/// (`redux.sync.fmin` and `redux.sync.fmax`). Only datacenter Blackwell (sm_100a) does.
#[derive(Clone, Copy, Debug, PartialEq, Eq, Structural)]
pub enum FloatRedux {
    /// The instructions are available.
    Available,
    /// The GPU is older than Blackwell.
    NeedsBlackwell,
    /// The GPU is a consumer Blackwell (sm_120).
    ConsumerBlackwell,
    /// The GPU is of another generation after datacenter Blackwell.
    OtherGeneration,
}

/// What the major number of the compute capability says about the instructions.
pub fn float_redux(major: i32) -> (support: FloatRedux)
    ensures
        support == FloatRedux::Available <==> major == 10,
        support == FloatRedux::NeedsBlackwell <==> major < 10,
        support == FloatRedux::ConsumerBlackwell <==> major == 12,
        support == FloatRedux::OtherGeneration <==> major == 11 || major > 12,
{
    if major < 10 {
        FloatRedux::NeedsBlackwell
    } else if major == 10 {
        FloatRedux::Available
    } else if major == 12 {
        FloatRedux::ConsumerBlackwell
    } else {
        FloatRedux::OtherGeneration
    }
}

} // verus!
