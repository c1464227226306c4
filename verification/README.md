# cuda_device

A verified model of CUDA device code, written in Rust and Verus.

- `src/block.rs`: a thread block with its shared and global memory and its asynchronous
  copies. A copy lands at any time after it was issued, and is completed when a thread has
  waited for it. A thread may access it after its own wait, or after a barrier.
- `src/async_copy.rs`: the copies `cp_async_ca_4` and `cp_async_ca_8`, and the ways to
  complete them: `wait_all`, commit and wait groups, and mbarriers.
- `src/laws.rs`: what holds of every trace of permitted actions. A block cannot tell
  asynchronous copies from immediate ones, and the first wait that covers a copy finds the
  bytes that its source held when it was issued.
- `src/warp.rs`: lane masks, ballots and compaction ranks.
- `src/attention.rs`: the tiling and data movement of an attention kernel.
- `src/target.rs`: which GPUs have the floating-point warp reductions.
- `tests/`: the library run on concrete values.
- `app/`: the device entry points with raw pointers, floating-point kernels on the host,
  and printing.

No function of the library is trusted without proof.
