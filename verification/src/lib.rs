//! A verified model of CUDA device code: the asynchronous copies of a thread block,
//! the lane masks and prefix sums of a warp, and the tiling of an attention kernel.

pub mod async_copy;
pub mod attention;
pub mod block;
pub mod history;
pub mod laws;
pub mod target;
pub mod warp;
