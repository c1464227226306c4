use cuda_device::async_copy::{
    cg_supports, cp_async_ca_4, cp_async_ca_8, cp_async_commit_group, cp_async_mbarrier_arrive,
    cp_async_wait_all, cp_async_wait_group, mbarrier_wait, Mbarrier,
};
use cuda_device::block::{CopyWidth, ThreadBlock};

/// A block of two threads with 32 bytes of zeroed shared memory and 64 bytes of global
/// memory that count up from 100.
fn block() -> ThreadBlock {
    let global: Vec<u8> = (100..164).collect();
    ThreadBlock::new(vec![0; 32], global, 2)
}

fn shared(b: &ThreadBlock, thread: usize, from: usize, to: usize) -> Vec<u8> {
    (from..to).map(|a| b.load_shared(thread, a)).collect()
}

#[test]
fn four_byte_copy_delivers_after_wait_all() {
    let mut b = block();
    cp_async_ca_4(&mut b, 0, 4, 8);
    assert_eq!(shared(&b, 0, 0, 4), vec![0, 0, 0, 0]);
    cp_async_wait_all(&mut b, 0);
    assert_eq!(shared(&b, 0, 0, 12), vec![0, 0, 0, 0, 108, 109, 110, 111, 0, 0, 0, 0]);
}

#[test]
fn eight_byte_copy_delivers_after_wait_all() {
    let mut b = block();
    cp_async_ca_8(&mut b, 1, 8, 16);
    cp_async_wait_all(&mut b, 1);
    assert_eq!(
        shared(&b, 1, 4, 20),
        vec![0, 0, 0, 0, 116, 117, 118, 119, 120, 121, 122, 123, 0, 0, 0, 0]
    );
}

#[test]
fn copies_reach_the_ends_of_both_memories() {
    let mut b = block();
    cp_async_ca_8(&mut b, 0, 24, 56);
    cp_async_ca_4(&mut b, 0, 0, 0);
    cp_async_wait_all(&mut b, 0);
    assert_eq!(shared(&b, 0, 0, 4), vec![100, 101, 102, 103]);
    assert_eq!(shared(&b, 0, 24, 32), vec![156, 157, 158, 159, 160, 161, 162, 163]);
}

#[test]
fn committed_group_is_complete_after_matching_wait() {
    let mut b = block();
    cp_async_ca_4(&mut b, 0, 0, 0);
    cp_async_commit_group(&mut b, 0);
    cp_async_ca_4(&mut b, 0, 4, 4);
    cp_async_commit_group(&mut b, 0);
    cp_async_wait_group(&mut b, 0, 1);
    assert_eq!(shared(&b, 0, 0, 4), vec![100, 101, 102, 103]);
    cp_async_wait_group(&mut b, 0, 0);
    assert_eq!(shared(&b, 0, 0, 8), vec![100, 101, 102, 103, 104, 105, 106, 107]);
}

#[test]
fn wait_group_beyond_the_groups_waits_for_nothing() {
    let mut b = block();
    cp_async_ca_4(&mut b, 0, 0, 0);
    cp_async_commit_group(&mut b, 0);
    cp_async_wait_group(&mut b, 0, 1);
    cp_async_wait_group(&mut b, 0, usize::MAX);
    cp_async_wait_group(&mut b, 1, 0);
    cp_async_wait_group(&mut b, 0, 0);
    assert_eq!(shared(&b, 0, 0, 4), vec![100, 101, 102, 103]);
}

#[test]
fn uncommitted_copy_is_covered_by_wait_all_only() {
    let mut b = block();
    cp_async_ca_4(&mut b, 0, 0, 0);
    cp_async_commit_group(&mut b, 0);
    cp_async_ca_4(&mut b, 0, 4, 4);
    cp_async_wait_group(&mut b, 0, 0);
    assert_eq!(shared(&b, 0, 0, 4), vec![100, 101, 102, 103]);
    cp_async_wait_all(&mut b, 0);
    assert_eq!(shared(&b, 0, 4, 8), vec![104, 105, 106, 107]);
}

#[test]
fn commit_and_wait_group_does_what_wait_all_does() {
    let mut a = block();
    cp_async_ca_8(&mut a, 0, 0, 8);
    cp_async_commit_group(&mut a, 0);
    cp_async_wait_group(&mut a, 0, 0);
    let mut b = block();
    cp_async_ca_8(&mut b, 0, 0, 8);
    cp_async_wait_all(&mut b, 0);
    cp_async_commit_group(&mut b, 0);
    assert_eq!(format!("{a:?}"), format!("{b:?}"));
    assert_eq!(shared(&a, 0, 0, 8), vec![108, 109, 110, 111, 112, 113, 114, 115]);
}

#[test]
fn mbarrier_completes_the_copies_before_the_arrival() {
    let mut b = block();
    let mut bar = Mbarrier::new();
    cp_async_ca_4(&mut b, 0, 0, 0);
    cp_async_ca_4(&mut b, 1, 8, 8);
    cp_async_mbarrier_arrive(&b, 0, &mut bar);
    cp_async_mbarrier_arrive(&b, 1, &mut bar);
    cp_async_ca_4(&mut b, 0, 16, 16);
    mbarrier_wait(&mut b, 0, &bar);
    assert_eq!(shared(&b, 0, 0, 4), vec![100, 101, 102, 103]);
    assert_eq!(shared(&b, 0, 8, 12), vec![108, 109, 110, 111]);
    mbarrier_wait(&mut b, 1, &bar);
    assert_eq!(shared(&b, 1, 0, 4), vec![100, 101, 102, 103]);
    assert_eq!(shared(&b, 1, 8, 12), vec![108, 109, 110, 111]);
    let text = format!("{b:?}");
    assert_eq!(text.matches("completed: true").count(), 2);
    assert_eq!(text.matches("completed: false").count(), 1);
}

#[test]
fn empty_mbarrier_completes_nothing() {
    let mut b = block();
    cp_async_ca_4(&mut b, 0, 0, 0);
    mbarrier_wait(&mut b, 1, &Mbarrier::new());
    assert_eq!(format!("{b:?}").matches("completed: true").count(), 0);
}

#[test]
fn mbarrier_hands_a_copy_to_the_waiting_thread() {
    let mut b = block();
    let mut bar = Mbarrier::new();
    cp_async_ca_8(&mut b, 0, 16, 32);
    cp_async_mbarrier_arrive(&b, 0, &mut bar);
    mbarrier_wait(&mut b, 1, &bar);
    assert_eq!(shared(&b, 1, 16, 24), vec![132, 133, 134, 135, 136, 137, 138, 139]);
    cp_async_ca_4(&mut b, 1, 16, 0);
    cp_async_wait_all(&mut b, 1);
    assert_eq!(shared(&b, 1, 16, 24), vec![100, 101, 102, 103, 136, 137, 138, 139]);
    b.sync_threads();
    assert_eq!(shared(&b, 0, 16, 24), vec![100, 101, 102, 103, 136, 137, 138, 139]);
}

#[test]
fn other_thread_reads_after_synchronizing() {
    let mut b = block();
    cp_async_ca_4(&mut b, 0, 0, 12);
    cp_async_wait_all(&mut b, 0);
    b.sync_threads();
    assert_eq!(shared(&b, 1, 0, 4), vec![112, 113, 114, 115]);
}

#[test]
fn synchronizing_does_not_complete_a_copy() {
    let mut b = block();
    cp_async_ca_4(&mut b, 0, 0, 12);
    b.sync_threads();
    assert_eq!(format!("{b:?}").matches("completed: false").count(), 1);
    cp_async_wait_all(&mut b, 0);
    assert_eq!(shared(&b, 0, 0, 4), vec![112, 113, 114, 115]);
}

#[test]
fn waits_cover_the_copies_of_the_executing_thread() {
    let mut b = block();
    cp_async_ca_4(&mut b, 0, 0, 0);
    cp_async_ca_4(&mut b, 1, 4, 4);
    cp_async_wait_all(&mut b, 0);
    let text = format!("{b:?}");
    assert_eq!(text.matches("completed: true").count(), 1);
    assert_eq!(text.matches("completed: false").count(), 1);
}

#[test]
fn landing_order_does_not_matter() {
    let mut a = block();
    let mut b = block();
    for x in [&mut a, &mut b] {
        cp_async_ca_4(x, 0, 0, 20);
        cp_async_ca_8(x, 0, 8, 40);
    }
    a.land(0);
    a.land(1);
    b.land(1);
    b.land(0);
    b.land(0);
    assert_eq!(format!("{a:?}"), format!("{b:?}"));
    cp_async_wait_all(&mut a, 0);
    assert_eq!(shared(&a, 0, 0, 4), vec![120, 121, 122, 123]);
    assert_eq!(shared(&a, 0, 8, 16), vec![140, 141, 142, 143, 144, 145, 146, 147]);
}

#[test]
fn early_landing_changes_nothing_that_may_be_read() {
    let mut a = block();
    let mut b = block();
    cp_async_ca_4(&mut a, 0, 4, 4);
    cp_async_ca_4(&mut b, 0, 4, 4);
    b.land(0);
    for x in [&mut a, &mut b] {
        x.store_shared(1, 0, 7);
        x.store_global(0, 9);
        cp_async_wait_all(x, 0);
    }
    assert_eq!(format!("{a:?}"), format!("{b:?}"));
    assert_eq!(shared(&a, 0, 0, 8), vec![7, 0, 0, 0, 104, 105, 106, 107]);
    assert_eq!(a.load_global(0), 9);
}

#[test]
fn source_may_change_once_the_copy_is_completed() {
    let mut b = block();
    cp_async_ca_4(&mut b, 0, 0, 0);
    cp_async_wait_all(&mut b, 0);
    b.store_global(1, 1);
    assert_eq!(shared(&b, 0, 0, 4), vec![100, 101, 102, 103]);
    cp_async_ca_4(&mut b, 0, 0, 0);
    cp_async_wait_all(&mut b, 0);
    assert_eq!(shared(&b, 0, 0, 4), vec![100, 1, 102, 103]);
}

#[test]
fn eight_bytes_are_two_fours() {
    let mut a = block();
    cp_async_ca_8(&mut a, 0, 8, 24);
    cp_async_wait_all(&mut a, 0);
    let mut b = block();
    cp_async_ca_4(&mut b, 0, 8, 24);
    cp_async_ca_4(&mut b, 0, 12, 28);
    cp_async_wait_all(&mut b, 0);
    assert_eq!(shared(&a, 0, 0, 32), shared(&b, 0, 0, 32));
    assert_eq!(shared(&a, 0, 8, 16), vec![124, 125, 126, 127, 128, 129, 130, 131]);
}

#[test]
fn block_counts_threads_and_copies() {
    let mut b = block();
    assert_eq!(b.threads(), 2);
    assert_eq!(b.issued(), 0);
    cp_async_ca_4(&mut b, 1, 0, 0);
    cp_async_ca_8(&mut b, 0, 8, 8);
    assert_eq!(b.issued(), 2);
}

#[test]
fn widths_and_instructions() {
    assert_eq!(CopyWidth::Four.bytes(), 4);
    assert_eq!(CopyWidth::Eight.bytes(), 8);
    assert_eq!(
        CopyWidth::Four.ptx("smem", "gmem"),
        "cp.async.ca.shared.global [smem], [gmem], 4;"
    );
    assert_eq!(
        CopyWidth::Eight.ptx("shared_dst", "global_src"),
        "cp.async.ca.shared.global [shared_dst], [global_src], 8;"
    );
}

#[test]
fn cg_is_for_sixteen_bytes_only() {
    assert!(cg_supports(16));
    assert!(!cg_supports(CopyWidth::Four.bytes()));
    assert!(!cg_supports(CopyWidth::Eight.bytes()));
}
