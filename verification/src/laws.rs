//! What holds of asynchronous copies whatever a block of threads does with them.
//!
//! A trace is a sequence of actions of the threads and of the memory system. As long
//! as every action is permitted in the state in which it happens, a block cannot tell
//! asynchronous copies from immediate ones, and the first wait that covers a copy finds
//! in its destination the bytes that its source held when it was issued.

use vstd::prelude::*;
use crate::block::AsyncCopy;
use crate::block::BlockView;
use crate::block::CopyWidth;
use crate::block::splice;

verus! {

/// One thing that happens to a block.
pub enum Action {
    /// A thread issues a copy.
    Issue { thread: int, dst: int, src: int, width: CopyWidth },
    /// The memory system lets a copy land.
    Land { i: int },
    /// A thread commits a group.
    Commit { thread: int },
    /// A thread waits for its groups, but for the last `n`.
    WaitGroup { thread: int, n: int },
    /// A thread waits for all of its copies.
    WaitAll { thread: int },
    /// A thread waits for the copies that a barrier tracks.
    WaitArrivals { thread: int, arrivals: Seq<(usize, u64)> },
    /// The threads synchronize.
    Sync,
    /// A thread reads a byte of shared memory.
    LoadShared { thread: int, addr: int },
    /// A thread writes a byte of shared memory.
    StoreShared { thread: int, addr: int, x: u8 },
    /// A byte of global memory is written.
    StoreGlobal { addr: int, x: u8 },
}

/// Whether an action is permitted in a state.
pub open spec fn permits(v: BlockView, action: Action) -> bool {
    match action {
        Action::Issue { thread, dst, src, width } => v.may_issue(thread, dst, src, width)
            && v.issued < u64::MAX,
        Action::Land { i } => 0 <= i < v.copies.len(),
        Action::Commit { thread } => 0 <= thread < v.threads(),
        Action::WaitGroup { thread, n } => 0 <= thread < v.threads() && 0 <= n,
        Action::WaitAll { thread } => 0 <= thread < v.threads(),
        Action::WaitArrivals { thread, arrivals } => 0 <= thread < v.threads(),
        Action::Sync => true,
        Action::LoadShared { thread, addr } => 0 <= thread < v.threads() && 0 <= addr
            < v.shared.len() && v.accessible(thread, addr),
        Action::StoreShared { thread, addr, x } => 0 <= thread < v.threads() && 0 <= addr
            < v.shared.len() && v.accessible(thread, addr),
        Action::StoreGlobal { addr, x } => 0 <= addr < v.global.len() && v.unread(addr),
    }
}

/// The state after an action.
pub open spec fn act(v: BlockView, action: Action) -> BlockView {
    match action {
        Action::Issue { thread, dst, src, width } => v.issue(thread, dst, src, width),
        Action::Land { i } => v.land(i),
        Action::Commit { thread } => v.commit_group(thread),
        Action::WaitGroup { thread, n } => v.wait_group(thread, n),
        Action::WaitAll { thread } => v.wait_all(thread),
        Action::WaitArrivals { thread, arrivals } => v.wait_arrivals(thread, arrivals),
        Action::Sync => v.sync(),
        Action::LoadShared { thread, addr } => v,
        Action::StoreShared { thread, addr, x } => v.store_shared(addr, x),
        Action::StoreGlobal { addr, x } => v.store_global(addr, x),
    }
}

/// The state after a trace.
pub open spec fn run(v: BlockView, trace: Seq<Action>) -> BlockView
    decreases trace.len(),
{
    if trace.len() == 0 {
        v
    } else {
        act(run(v, trace.drop_last()), trace.last())
    }
}

/// Whether each action of a trace is permitted in the state in which it happens.
pub open spec fn run_permitted(v: BlockView, trace: Seq<Action>) -> bool
    decreases trace.len(),
{
    trace.len() == 0 || (run_permitted(v, trace.drop_last()) && permits(
        run(v, trace.drop_last()),
        trace.last(),
    ))
}

/// Shared and global memory of a block whose copies are immediate.
pub struct Memories {
    pub shared: Seq<u8>,
    pub global: Seq<u8>,
}

/// The memories after an action, were every copy immediate: a copy takes effect when
/// it is issued, and there is nothing to wait for.
pub open spec fn act_now(m: Memories, action: Action) -> Memories {
    match action {
        Action::Issue { thread, dst, src, width } => Memories {
            shared: splice(m.shared, dst, m.global.subrange(src, src + width.size())),
            ..m
        },
        Action::StoreShared { thread, addr, x } => Memories {
            shared: m.shared.update(addr, x),
            ..m
        },
        Action::StoreGlobal { addr, x } => Memories { global: m.global.update(addr, x), ..m },
        _ => m,
    }
}

/// The memories after a trace, were every copy immediate.
pub open spec fn run_now(m: Memories, trace: Seq<Action>) -> Memories
    decreases trace.len(),
{
    if trace.len() == 0 {
        m
    } else {
        act_now(run_now(m, trace.drop_last()), trace.last())
    }
}

/// Every permitted action keeps the state well formed: what is asked of a copy when it
/// is issued goes on to hold until it is completed.
pub proof fn law_permitted_action_keeps_wf(v: BlockView, action: Action)
    requires
        v.wf(),
        permits(v, action),
    ensures
        act(v, action).wf(),
{
    match action {
        Action::Issue { thread, dst, src, width } => {
            crate::block::lemma_issue_wf(v, thread, dst, src, width);
        },
        Action::Land { i } => {
            crate::block::lemma_advance_wf(v, crate::block::only(i), None);
        },
        Action::Commit { thread } => {
            crate::block::lemma_commit_wf(v, thread);
        },
        Action::WaitGroup { thread, n } => {
            let marks = v.groups[thread];
            if n < marks.len() {
                let mark = marks[marks.len() - 1 - n] as int;
                crate::block::lemma_advance_wf(
                    v,
                    v.issued_before(thread, mark),
                    Some(thread as usize),
                );
            }
        },
        Action::WaitAll { thread } => {
            crate::block::lemma_advance_wf(
                v,
                v.issued_before(thread, v.issued),
                Some(thread as usize),
            );
        },
        Action::WaitArrivals { thread, arrivals } => {
            crate::block::lemma_advance_wf(v, v.tracked_by(arrivals), Some(thread as usize));
        },
        Action::Sync => {
            crate::block::lemma_sync_wf(v);
        },
        Action::LoadShared { thread, addr } => {},
        Action::StoreShared { thread, addr, x } => {
            crate::block::lemma_store_shared_wf(v, thread, addr, x);
        },
        Action::StoreGlobal { addr, x } => {
            crate::block::lemma_store_global_wf(v, addr, x);
        },
    }
}

/// Landing and completing copies, in whatever order and at whatever time, does not
/// change what shared memory holds once every copy has landed.
pub proof fn law_landing_keeps_settled(
    v: BlockView,
    sel: spec_fn(int) -> bool,
    waiter: Option<usize>,
)
    requires
        v.wf(),
    ensures
        v.advance(sel, waiter).settled() == v.settled(),
{
    let all = |j: int| true;
    let w = v.advance(sel, waiter);
    assert forall|a: int| 0 <= a < v.shared.len() implies w.byte_after(all, a) == v.byte_after(
        all,
        a,
    ) by {
        let both = |j: int| sel(j) || all(j);
        crate::block::lemma_byte_compose(v, sel, waiter, all, a);
        crate::block::lemma_advance_same(v, both, all, waiter);
        assert(v.advance(both, waiter).shared[a] == v.byte_after(both, a));
        assert(v.advance(all, waiter).shared[a] == v.byte_after(all, a));
    }
    assert(w.settled() =~= v.settled());
}

/// Two copies may land in either order.
pub proof fn law_landing_order_is_free(v: BlockView, i: int, k: int)
    requires
        v.wf(),
        0 <= i < v.copies.len(),
        0 <= k < v.copies.len(),
    ensures
        v.land(i).land(k) == v.land(k).land(i),
{
    let si = crate::block::only(i);
    let sk = crate::block::only(k);
    crate::block::lemma_advance_compose(v, si, sk, None);
    crate::block::lemma_advance_compose(v, sk, si, None);
    crate::block::lemma_advance_same(
        v,
        |j: int| si(j) || sk(j),
        |j: int| sk(j) || si(j),
        None,
    );
}

/// What the destinations of copies that have not landed hold in the meantime does not
/// matter: any other bytes there lead to the same shared memory in the end.
pub proof fn law_bytes_in_flight_do_not_matter(v: BlockView, shared: Seq<u8>)
    requires
        v.wf(),
        shared.len() == v.shared.len(),
        forall|a: int|
            0 <= a < shared.len() && (forall|j: int|
                0 <= j < v.copies.len() && !(#[trigger] v.copies[j]).landed
                    ==> !v.copies[j].covers(a)) ==> #[trigger] shared[a] == v.shared[a],
    ensures
        (BlockView { shared, ..v }).settled() == v.settled(),
{
    let all = |j: int| true;
    let w = BlockView { shared, ..v };
    assert forall|a: int| 0 <= a < shared.len() implies w.byte_after(all, a) == v.byte_after(
        all,
        a,
    ) by {
        if forall|j: int| !#[trigger] v.lands_on(all, j, a) {
            assert forall|j: int| !#[trigger] w.lands_on(all, j, a) by {
                assert(!v.lands_on(all, j, a));
            }
            assert forall|j: int|
                0 <= j < v.copies.len() && !(#[trigger] v.copies[j]).landed implies !v.copies[j].covers(
            a) by {
                assert(!v.lands_on(all, j, a));
            }
        } else {
            let j = choose|j: int| #[trigger] v.lands_on(all, j, a);
            let k = choose|k: int| #[trigger] w.lands_on(all, k, a);
            assert(w.lands_on(all, j, a));
            assert(v.lands_on(all, k, a));
            crate::block::lemma_byte_after(v, all, j, a);
            crate::block::lemma_byte_after(v, all, k, a);
        }
    }
    assert(w.settled() =~= v.settled());
}

/// Committing a group moves no byte.
proof fn lemma_commit_settled(v: BlockView, thread: int)
    requires
        v.wf(),
        0 <= thread < v.threads(),
    ensures
        v.commit_group(thread).settled() == v.settled(),
{
    let all = |j: int| true;
    let w = v.commit_group(thread);
    crate::block::lemma_commit_wf(v, thread);
    assert forall|a: int| w.byte_after(all, a) == v.byte_after(all, a) by {
        crate::block::lemma_byte_agrees(v, all, w, all, a);
    }
    assert(w.settled() =~= v.settled());
}

/// Synchronizing drops only copies that have landed, so it settles nothing anew.
proof fn lemma_sync_settled(v: BlockView)
    requires
        v.wf(),
    ensures
        v.sync().settled() == v.settled(),
{
    let all = |j: int| true;
    let w = v.sync();
    let keep = |c: AsyncCopy| !c.completed;
    let pos = crate::block::lemma_filter_positions(v.copies, keep);
    crate::block::lemma_sync_wf(v);
    assert forall|a: int| 0 <= a < v.shared.len() implies w.byte_after(all, a) == v.byte_after(
        all,
        a,
    ) by {
        if exists|j: int| #[trigger] w.lands_on(all, j, a) {
            let j = choose|j: int| #[trigger] w.lands_on(all, j, a);
            assert(v.lands_on(all, pos[j], a));
            crate::block::lemma_byte_after(v, all, pos[j], a);
            crate::block::lemma_byte_after(w, all, j, a);
        } else if exists|j: int| #[trigger] v.lands_on(all, j, a) {
            let j = choose|j: int| #[trigger] v.lands_on(all, j, a);
            assert(v.copy_ok(j));
            v.copies.lemma_filter_contains(keep, j);
            let k = choose|k: int| 0 <= k < w.copies.len() && w.copies[k] == v.copies[j];
            assert(w.lands_on(all, k, a));
        }
    }
    assert(w.settled() =~= v.settled());
}

/// A permitted action has the same effect on the settled memory as on the memory of a
/// block whose copies are immediate.
pub proof fn law_action_acts_as_immediate(v: BlockView, action: Action)
    requires
        v.wf(),
        permits(v, action),
    ensures
        act_now(Memories { shared: v.settled(), global: v.global }, action) == (Memories {
            shared: act(v, action).settled(),
            global: act(v, action).global,
        }),
{
    let all = |j: int| true;
    let w = act(v, action);
    match action {
        Action::Issue { thread, dst, src, width } => {
            crate::async_copy::law_issue_acts_as_immediate_copy(v, thread, dst, src, width);
        },
        Action::Land { i } => {
            law_landing_keeps_settled(v, crate::block::only(i), None);
        },
        Action::Commit { thread } => {
            lemma_commit_settled(v, thread);
        },
        Action::WaitGroup { thread, n } => {
            let marks = v.groups[thread];
            if n < marks.len() {
                let mark = marks[marks.len() - 1 - n] as int;
                law_landing_keeps_settled(
                    v,
                    v.issued_before(thread, mark),
                    Some(thread as usize),
                );
            }
        },
        Action::WaitAll { thread } => {
            law_landing_keeps_settled(
                v,
                v.issued_before(thread, v.issued),
                Some(thread as usize),
            );
        },
        Action::WaitArrivals { thread, arrivals } => {
            law_landing_keeps_settled(v, v.tracked_by(arrivals), Some(thread as usize));
        },
        Action::Sync => {
            lemma_sync_settled(v);
        },
        Action::LoadShared { thread, addr } => {},
        Action::StoreShared { thread, addr, x } => {
            crate::block::lemma_store_shared_wf(v, thread, addr, x);
            assert forall|a: int| 0 <= a < v.shared.len() implies w.byte_after(all, a)
                == v.settled().update(addr, x)[a] by {
                if a == addr {
                    assert(w.accessible(thread, a)) by {
                        assert forall|j: int| #[trigger] w.governs(j, a) implies w.has_waited(
                            thread,
                            j,
                        ) by {
                            assert(v.governs(j, a));
                        }
                    }
                    crate::block::lemma_untouched(w, all, thread, a);
                } else {
                    crate::block::lemma_byte_agrees(v, all, w, all, a);
                }
            }
            assert(w.settled() =~= v.settled().update(addr, x));
        },
        Action::StoreGlobal { addr, x } => {
            crate::block::lemma_store_global_wf(v, addr, x);
            assert forall|a: int| 0 <= a < v.shared.len() implies w.byte_after(all, a)
                == v.byte_after(all, a) by {
                assert forall|j: int| #[trigger] v.lands_on(all, j, a) implies v.source_byte(j, a)
                    == w.source_byte(j, a) by {
                    let c = v.copies[j];
                    assert(v.copy_ok(j));
                    assert(c.reads(c.src + (a - c.dst)));
                }
                crate::block::lemma_byte_agrees(v, all, w, all, a);
            }
            assert(w.settled() =~= v.settled());
        },
    }
}

/// A block cannot tell asynchronous copies from immediate ones: after any trace of
/// permitted actions, the settled memory is the one that immediate copies would have
/// left, and so is every byte that a thread may access.
pub proof fn law_run_acts_as_immediate(v: BlockView, trace: Seq<Action>)
    requires
        v.wf(),
        run_permitted(v, trace),
    ensures
        run(v, trace).wf(),
        run_now(Memories { shared: v.settled(), global: v.global }, trace) == (Memories {
            shared: run(v, trace).settled(),
            global: run(v, trace).global,
        }),
        forall|thread: int, a: int|
            0 <= a < v.shared.len() && #[trigger] run(v, trace).accessible(thread, a) ==> run(
                v,
                trace,
            ).shared[a] == run_now(
                Memories { shared: v.settled(), global: v.global },
                trace,
            ).shared[a],
    decreases trace.len(),
{
    let m = Memories { shared: v.settled(), global: v.global };
    if trace.len() > 0 {
        let u = run(v, trace.drop_last());
        law_run_acts_as_immediate(v, trace.drop_last());
        law_action_acts_as_immediate(u, trace.last());
        law_permitted_action_keeps_wf(u, trace.last());
    }
    let w = run(v, trace);
    assert(w.shared.len() == v.shared.len()) by {
        law_memories_keep_their_size(v, trace);
    }
    assert forall|thread: int, a: int|
        0 <= a < v.shared.len() && #[trigger] w.accessible(thread, a) implies w.shared[a]
        == run_now(m, trace).shared[a] by {
        crate::block::lemma_untouched(w, |j: int| true, thread, a);
    }
}

/// No action changes the size of a memory, so ranges that were valid when a copy was
/// issued remain so.
pub proof fn law_memories_keep_their_size(v: BlockView, trace: Seq<Action>)
    requires
        run_permitted(v, trace),
    ensures
        run(v, trace).shared.len() == v.shared.len(),
        run(v, trace).global.len() == v.global.len(),
    decreases trace.len(),
{
    if trace.len() > 0 {
        law_memories_keep_their_size(v, trace.drop_last());
    }
}

/// Whether the copy with the given ticket has been issued and not been completed.
pub open spec fn pending(v: BlockView, ticket: int) -> bool {
    exists|j: int|
        0 <= j < v.copies.len() && (#[trigger] v.copies[j]).ticket == ticket
            && !v.copies[j].completed
}

/// Whether copy `j` is `c` but for having landed, and is not completed.
pub open spec fn carries(v: BlockView, j: int, c: AsyncCopy) -> bool {
    &&& 0 <= j < v.copies.len()
    &&& v.copies[j] == AsyncCopy { landed: v.copies[j].landed, ..c }
    &&& !v.copies[j].completed
}

/// Whether a wait of `thread` that leaves its last `n` groups pending covers the copy
/// with the given ticket: the copy is in an earlier group.
pub open spec fn group_wait_covers(v: BlockView, thread: int, n: int, ticket: int) -> bool {
    exists|k: int|
        0 <= k < v.groups[thread].len() - n && ticket < #[trigger] v.groups[thread][k]
}

/// Whether an action is a wait that covers the copy that `issuer` issued with the given
/// ticket: its issuer waits for all copies or for the group of the copy, or some thread
/// waits on a barrier that tracks it.
pub open spec fn wait_covers(v: BlockView, action: Action, issuer: int, ticket: int) -> bool {
    match action {
        Action::WaitAll { thread } => thread == issuer,
        Action::WaitGroup { thread, n } => thread == issuer && group_wait_covers(
            v,
            thread,
            n,
            ticket,
        ),
        Action::WaitArrivals { thread, arrivals } => exists|k: int|
            0 <= k < arrivals.len() && (#[trigger] arrivals[k]).0 == issuer && ticket
                < arrivals[k].1,
        _ => false,
    }
}

/// The thread that waits in an action.
pub open spec fn waiter(action: Action) -> int
    recommends
        action is WaitAll || action is WaitGroup || action is WaitArrivals,
{
    match action {
        Action::WaitAll { thread } => thread,
        Action::WaitGroup { thread, n } => thread,
        Action::WaitArrivals { thread, arrivals } => thread,
        _ => -1,
    }
}

/// Whether no action of a trace is a wait that covers the copy that `issuer` issued with
/// the given ticket.
pub open spec fn no_wait_covers(
    v: BlockView,
    trace: Seq<Action>,
    issuer: int,
    ticket: int,
) -> bool
    decreases trace.len(),
{
    trace.len() == 0 || (no_wait_covers(v, trace.drop_last(), issuer, ticket) && !wait_covers(
        run(v, trace.drop_last()),
        trace.last(),
        issuer,
        ticket,
    ))
}

/// The copy of a group wait is covered exactly if it precedes the mark that the wait
/// goes by.
pub(crate) proof fn lemma_group_mark(v: BlockView, thread: int, n: int, ticket: int)
    requires
        v.wf(),
        0 <= thread < v.threads(),
        0 <= n,
    ensures
        group_wait_covers(v, thread, n, ticket) <==> n < v.groups[thread].len() && ticket
            < v.groups[thread][v.groups[thread].len() - 1 - n],
{
    let marks = v.groups[thread];
    if n < marks.len() {
        let last = marks.len() - 1 - n;
        if ticket < marks[last] {
            assert(ticket < v.groups[thread][last]);
        } else {
            assert forall|k: int| 0 <= k < marks.len() - n implies ticket
                >= #[trigger] v.groups[thread][k] by {
                assert(v.groups[thread][k] <= v.groups[thread][last]);
            }
        }
    }
}

/// What a wait does to an uncompleted copy: one that is not selected stays, and one
/// that is selected is delivered and opened to the waiting thread.
proof fn lemma_complete_delivers(
    v: BlockView,
    sel: spec_fn(int) -> bool,
    waiter: int,
    j: int,
    c: AsyncCopy,
)
    requires
        v.wf(),
        carries(v, j, c),
        0 <= waiter <= usize::MAX,
    ensures
        !sel(j) ==> carries(v.advance(sel, Some(waiter as usize)), j, c),
        sel(j) ==> {
            let w = v.advance(sel, Some(waiter as usize));
            &&& !pending(w, c.ticket as int)
            &&& w.shared.subrange(c.dst as int, c.dst + c.width.size()) == v.global.subrange(
                c.src as int,
                c.src + c.width.size(),
            )
            &&& forall|a: int| c.covers(a) ==> #[trigger] w.accessible(waiter, a)
        },
{
    let w = v.advance(sel, Some(waiter as usize));
    let bytes = v.global.subrange(c.src as int, c.src + c.width.size());
    assert(v.copy_ok(j));
    if sel(j) {
        assert forall|a: int| c.covers(a) implies w.shared[a] == bytes[a - c.dst] by {
            if v.copies[j].landed {
                assert(v.shared[a] == v.source_byte(j, a));
                assert forall|k: int| !#[trigger] v.lands_on(sel, k, a) by {
                    if v.lands_on(sel, k, a) {
                        assert(v.copy_ok(k));
                        crate::block::lemma_uncompleted_governs(v, k, a);
                        crate::block::lemma_uncompleted_governs(v, j, a);
                    }
                }
            } else {
                assert(v.lands_on(sel, j, a));
                crate::block::lemma_byte_after(v, sel, j, a);
            }
        }
        let dst = w.shared.subrange(c.dst as int, c.dst + c.width.size());
        assert forall|i: int| 0 <= i < c.width.size() implies dst[i] == bytes[i] by {
            assert(c.covers(c.dst + i));
        }
        assert(dst =~= bytes);
        assert forall|a: int| c.covers(a) implies #[trigger] w.accessible(waiter, a) by {
            crate::block::lemma_uncompleted_governs(v, j, a);
            assert(v.selects(sel, c.ticket)) by {
                assert(v.copies[j].ticket == c.ticket);
            }
            assert forall|k: int| #[trigger] w.governs(k, a) implies w.has_waited(waiter, k) by {
                assert(w.copies[j].covers(a));
                if k < j {
                    assert(!w.copies[j].covers(a));
                } else if j < k {
                    assert(!v.copies[k].covers(a));
                }
            }
        }
        if pending(w, c.ticket as int) {
            let k = choose|k: int|
                0 <= k < w.copies.len() && (#[trigger] w.copies[k]).ticket == c.ticket
                    && !w.copies[k].completed;
            assert(v.copies[k].ticket == v.copies[j].ticket);
            assert(k == j);
        }
    }
}

/// A permitted action that is no wait for an uncompleted copy leaves the copy and its
/// source as they are. One that is delivers the copy.
pub(crate) proof fn lemma_action_delivers(v: BlockView, action: Action, j: int, c: AsyncCopy)
    requires
        v.wf(),
        permits(v, action),
        carries(v, j, c),
    ensures
        !wait_covers(v, action, c.thread as int, c.ticket as int) ==> {
            let w = act(v, action);
            &&& exists|k: int| carries(w, k, c)
            &&& w.global.subrange(c.src as int, c.src + c.width.size()) == v.global.subrange(
                c.src as int,
                c.src + c.width.size(),
            )
        },
        wait_covers(v, action, c.thread as int, c.ticket as int) ==> {
            let w = act(v, action);
            &&& !pending(w, c.ticket as int)
            &&& w.shared.subrange(c.dst as int, c.dst + c.width.size()) == v.global.subrange(
                c.src as int,
                c.src + c.width.size(),
            )
            &&& forall|a: int| c.covers(a) ==> #[trigger] w.accessible(waiter(action), a)
        },
{
    let w = act(v, action);
    let bytes = v.global.subrange(c.src as int, c.src + c.width.size());
    assert(v.copy_ok(j));
    match action {
        Action::WaitGroup { thread, n } => {
            let marks = v.groups[thread];
            lemma_group_mark(v, thread, n, c.ticket as int);
            if n < marks.len() {
                let sel = v.issued_before(thread, marks[marks.len() - 1 - n] as int);
                lemma_complete_delivers(v, sel, thread, j, c);
                assert(sel(j) == wait_covers(v, action, c.thread as int, c.ticket as int));
            }
            if !wait_covers(v, action, c.thread as int, c.ticket as int) {
                assert(carries(w, j, c));
            }
        },
        Action::WaitAll { thread } => {
            let sel = v.issued_before(thread, v.issued);
            lemma_complete_delivers(v, sel, thread, j, c);
            assert(sel(j) == wait_covers(v, action, c.thread as int, c.ticket as int));
            if !sel(j) {
                assert(carries(w, j, c));
            }
        },
        Action::WaitArrivals { thread, arrivals } => {
            let sel = v.tracked_by(arrivals);
            lemma_complete_delivers(v, sel, thread, j, c);
            assert(sel(j) == v.tracks(arrivals, j));
            assert(sel(j) == wait_covers(v, action, c.thread as int, c.ticket as int));
            if !sel(j) {
                assert(carries(w, j, c));
            }
        },
        Action::Sync => {
            let keep = |c: AsyncCopy| !c.completed;
            v.copies.lemma_filter_contains(keep, j);
            let k = choose|k: int| 0 <= k < w.copies.len() && w.copies[k] == v.copies[j];
            assert(carries(w, k, c));
        },
        Action::StoreGlobal { addr, x } => {
            assert(!v.copies[j].reads(addr));
            assert(w.global.subrange(c.src as int, c.src + c.width.size()) =~= bytes);
            assert(carries(w, j, c));
        },
        _ => {
            assert(carries(w, j, c));
        },
    }
}

/// As long as no wait covers it, a copy stays with the block, and so do the bytes of its
/// source.
proof fn lemma_run_carries(v: BlockView, trace: Seq<Action>, j: int, c: AsyncCopy) -> (k: int)
    requires
        v.wf(),
        run_permitted(v, trace),
        carries(v, j, c),
        no_wait_covers(v, trace, c.thread as int, c.ticket as int),
    ensures
        carries(run(v, trace), k, c),
        run(v, trace).global.subrange(c.src as int, c.src + c.width.size())
            == v.global.subrange(c.src as int, c.src + c.width.size()),
    decreases trace.len(),
{
    if trace.len() == 0 {
        j
    } else {
        let u = run(v, trace.drop_last());
        law_run_acts_as_immediate(v, trace.drop_last());
        let k = lemma_run_carries(v, trace.drop_last(), j, c);
        lemma_action_delivers(u, trace.last(), k, c);
        choose|i: int| carries(run(v, trace), i, c)
    }
}

/// A copy that is not pending does not become so again.
proof fn lemma_never_pending_again(v: BlockView, action: Action, ticket: int)
    requires
        v.wf(),
        permits(v, action),
        ticket < v.issued,
        !pending(v, ticket),
    ensures
        !pending(act(v, action), ticket),
{
    let w = act(v, action);
    if pending(w, ticket) {
        let j = choose|j: int|
            0 <= j < w.copies.len() && (#[trigger] w.copies[j]).ticket == ticket
                && !w.copies[j].completed;
        match action {
            Action::Sync => {
                let pos = crate::block::lemma_filter_positions(
                    v.copies,
                    |c: AsyncCopy| !c.completed,
                );
                assert(v.copies[pos[j]].ticket == ticket);
            },
            _ => {
                assert(v.copies[j].ticket == ticket);
            },
        }
    }
}

/// The number of issued copies does not shrink.
pub(crate) proof fn lemma_issued_grows(v: BlockView, trace: Seq<Action>)
    ensures
        v.issued <= run(v, trace).issued,
    decreases trace.len(),
{
    if trace.len() > 0 {
        lemma_issued_grows(v, trace.drop_last());
    }
}

/// Once a wait of a trace covers it, a copy is no longer pending.
proof fn lemma_covered_is_not_pending(v: BlockView, trace: Seq<Action>, j: int, c: AsyncCopy)
    requires
        v.wf(),
        run_permitted(v, trace),
        carries(v, j, c),
        !no_wait_covers(v, trace, c.thread as int, c.ticket as int),
    ensures
        !pending(run(v, trace), c.ticket as int),
    decreases trace.len(),
{
    let front = trace.drop_last();
    let u = run(v, front);
    assert(v.copy_ok(j));
    lemma_issued_grows(v, front);
    law_run_acts_as_immediate(v, front);
    if no_wait_covers(v, front, c.thread as int, c.ticket as int) {
        let k = lemma_run_carries(v, front, j, c);
        lemma_action_delivers(u, trace.last(), k, c);
    } else {
        lemma_covered_is_not_pending(v, front, j, c);
        lemma_never_pending_again(u, trace.last(), c.ticket as int);
    }
}

/// A copy that was issued is pending until a wait covers it, and from then on it never
/// is. While it is pending, it keeps its issuer, its addresses and its width, and its
/// source keeps the bytes that it held at the issue.
pub proof fn law_copy_is_pending_until_waited_for(
    v: BlockView,
    thread: int,
    dst: int,
    src: int,
    width: CopyWidth,
    trace: Seq<Action>,
)
    requires
        v.wf(),
        permits(v, Action::Issue { thread, dst, src, width }),
        run_permitted(v.issue(thread, dst, src, width), trace),
    ensures
        pending(run(v.issue(thread, dst, src, width), trace), v.issued) <==> no_wait_covers(
            v.issue(thread, dst, src, width),
            trace,
            thread,
            v.issued,
        ),
        no_wait_covers(v.issue(thread, dst, src, width), trace, thread, v.issued) ==> {
            let w = run(v.issue(thread, dst, src, width), trace);
            &&& exists|j: int| carries(w, j, v.issue(thread, dst, src, width).copies.last())
            &&& w.global.subrange(src, src + width.size()) == v.global.subrange(
                src,
                src + width.size(),
            )
        },
{
    let s = v.issue(thread, dst, src, width);
    let n = v.copies.len() as int;
    let c = s.copies.last();
    crate::block::lemma_issue_wf(v, thread, dst, src, width);
    assert(carries(s, n, c));
    if no_wait_covers(s, trace, thread, v.issued) {
        let k = lemma_run_carries(s, trace, n, c);
        assert(run(s, trace).copies[k].ticket == v.issued);
    } else {
        lemma_covered_is_not_pending(s, trace, n, c);
    }
}

/// A copy delivers: whatever permitted actions come between its issue and the first
/// wait that covers it, once that wait returns the destination holds the bytes that the
/// source held when the copy was issued, and the thread that waited may access them.
/// The wait is `WaitAll` or a covering `WaitGroup` by the issuer, or `WaitArrivals` by
/// any thread on a barrier that tracks the copy.
pub proof fn law_wait_delivers(
    v: BlockView,
    thread: int,
    dst: int,
    src: int,
    width: CopyWidth,
    trace: Seq<Action>,
    wait: Action,
)
    requires
        v.wf(),
        permits(v, Action::Issue { thread, dst, src, width }),
        run_permitted(v.issue(thread, dst, src, width), trace),
        no_wait_covers(v.issue(thread, dst, src, width), trace, thread, v.issued),
        permits(run(v.issue(thread, dst, src, width), trace), wait),
        wait_covers(run(v.issue(thread, dst, src, width), trace), wait, thread, v.issued),
    ensures
        act(run(v.issue(thread, dst, src, width), trace), wait).shared.subrange(
            dst,
            dst + width.size(),
        ) == v.global.subrange(src, src + width.size()),
        forall|a: int|
            dst <= a < dst + width.size() ==> #[trigger] act(
                run(v.issue(thread, dst, src, width), trace),
                wait,
            ).accessible(waiter(wait), a),
{
    let s = v.issue(thread, dst, src, width);
    let n = v.copies.len() as int;
    let c = s.copies.last();
    crate::block::lemma_issue_wf(v, thread, dst, src, width);
    law_run_acts_as_immediate(s, trace);
    assert(carries(s, n, c));
    let k = lemma_run_carries(s, trace, n, c);
    let u = run(s, trace);
    let w = act(u, wait);
    lemma_action_delivers(u, wait, k, c);
    assert forall|a: int| dst <= a < dst + width.size() implies #[trigger] w.accessible(
        waiter(wait),
        a,
    ) by {
        assert(c.covers(a));
    }
}

/// Until a copy is completed, no thread may access its destination, nothing may modify
/// its source, and no copy whose destination overlaps it may be issued.
pub proof fn law_uncompleted_copy_is_fenced(v: BlockView, j: int)
    requires
        v.wf(),
        0 <= j < v.copies.len(),
        !v.copies[j].completed,
    ensures
        forall|thread: int, a: int|
            v.copies[j].covers(a) ==> !#[trigger] v.accessible(thread, a),
        forall|a: int| v.copies[j].reads(a) ==> !#[trigger] v.unread(a),
        forall|thread: int, dst: int, src: int, width: CopyWidth|
            #[trigger] v.may_issue(thread, dst, src, width) ==> dst + width.size()
                <= v.copies[j].dst || v.copies[j].dst + v.copies[j].width.size() <= dst,
{
    let c = v.copies[j];
    assert forall|thread: int, a: int| c.covers(a) implies !#[trigger] v.accessible(thread, a) by {
        crate::block::lemma_uncompleted_governs(v, j, a);
    }
    assert forall|thread: int, dst: int, src: int, width: CopyWidth| #[trigger]
        v.may_issue(thread, dst, src, width) implies dst + width.size() <= c.dst || c.dst
        + c.width.size() <= dst by {
        let a: int = if c.dst < dst {
            dst
        } else {
            c.dst as int
        };
        if c.covers(a) && dst <= a < dst + width.size() {
            assert(v.accessible(thread, a));
        }
    }
}

/// Waiting for all copies of a thread completes exactly the copies of that thread, and
/// changes no other.
pub proof fn law_wait_all_covers_own_copies(v: BlockView, thread: int, j: int)
    requires
        v.wf(),
        0 <= thread < v.threads(),
        0 <= j < v.copies.len(),
    ensures
        v.copies[j].thread == thread ==> v.wait_all(thread).copies[j] == v.copies[j].advance(true),
        v.copies[j].thread == thread ==> v.wait_all(thread).has_waited(thread, j),
        v.copies[j].thread != thread ==> v.wait_all(thread).copies[j] == v.copies[j],
{
    assert(v.copy_ok(j));
    if v.copies[j].thread == thread {
        let sel = v.issued_before(thread, v.issued);
        assert(sel(j));
        assert(v.selects(sel, v.copies[j].ticket));
    }
}

/// Waiting until `n` groups are pending completes exactly those copies of the thread
/// that belong to a group other than the last `n`, and changes no other copy. In
/// particular a copy that is in no group yet is not waited for.
pub proof fn law_wait_group_covers_committed_copies(v: BlockView, thread: int, n: int, j: int)
    requires
        v.wf(),
        0 <= thread < v.threads(),
        0 <= n,
        0 <= j < v.copies.len(),
    ensures
        v.wait_group(thread, n).copies[j] == (if v.copies[j].thread == thread
            && group_wait_covers(v, thread, n, v.copies[j].ticket as int) {
            v.copies[j].advance(true)
        } else {
            v.copies[j]
        }),
{
    lemma_group_mark(v, thread, n, v.copies[j].ticket as int);
}

/// Committing a group and waiting until none is pending does what waiting for all
/// copies does.
pub proof fn law_commit_and_wait_is_wait_all(v: BlockView, thread: int)
    requires
        v.wf(),
        0 <= thread < v.threads(),
    ensures
        v.commit_group(thread).wait_group(thread, 0) == v.wait_all(thread).commit_group(thread),
{
    let w = v.commit_group(thread);
    let a = w.wait_group(thread, 0);
    let b = v.wait_all(thread).commit_group(thread);
    let sv = v.issued_before(thread, v.issued);
    let sw = w.issued_before(thread, v.issued);
    crate::block::lemma_commit_wf(v, thread);
    assert(w.groups[thread].last() == v.issued);
    assert forall|x: int| 0 <= x < v.shared.len() implies w.byte_after(sw, x) == v.byte_after(
        sv,
        x,
    ) by {
        crate::block::lemma_byte_agrees(v, sv, w, sw, x);
    }
    assert forall|ticket: u64| v.selects(sv, ticket) == w.selects(sw, ticket) by {
        if v.selects(sv, ticket) {
            let j = choose|j: int|
                0 <= j < v.copies.len() && sv(j) && (#[trigger] v.copies[j]).ticket == ticket;
            assert(sw(j) && w.copies[j].ticket == ticket);
        }
        if w.selects(sw, ticket) {
            let j = choose|j: int|
                0 <= j < w.copies.len() && sw(j) && (#[trigger] w.copies[j]).ticket == ticket;
            assert(sv(j) && v.copies[j].ticket == ticket);
        }
    }
    assert(a.waited =~= b.waited);
    assert(a =~= b);
}

/// A barrier at which a thread has arrived tracks every copy that the thread had issued
/// by then, so a thread that waits on it completes them and has then waited for them.
/// The wait gives no other thread access.
pub proof fn law_mbarrier_covers_copies_before_arrival(
    v: BlockView,
    thread: int,
    arrivals: Seq<(usize, u64)>,
    k: int,
    j: int,
)
    requires
        v.wf(),
        0 <= thread < v.threads(),
        0 <= k < arrivals.len(),
        0 <= j < v.copies.len(),
        v.copies[j].thread == arrivals[k].0,
        v.copies[j].ticket < arrivals[k].1,
    ensures
        v.tracks(arrivals, j),
        v.wait_arrivals(thread, arrivals).copies[j] == v.copies[j].advance(true),
        v.wait_arrivals(thread, arrivals).has_waited(thread, j),
        forall|other: int|
            0 <= other < v.threads() && other != thread ==> (#[trigger] v.wait_arrivals(
                thread,
                arrivals,
            ).has_waited(other, j) <==> v.has_waited(other, j)),
{
    let sel = v.tracked_by(arrivals);
    assert(v.tracks(arrivals, j));
    assert(sel(j));
    assert(v.selects(sel, v.copies[j].ticket));
}

/// A copy that is the last one on an address closes the address to every thread that has
/// not waited for it, until the threads synchronize. Synchronizing opens exactly the
/// addresses that no uncompleted copy covers, to all threads alike.
pub proof fn law_other_threads_need_sync(v: BlockView, thread: int, a: int)
    requires
        v.wf(),
    ensures
        forall|j: int|
            #[trigger] v.governs(j, a) ==> (v.accessible(thread, a) <==> v.has_waited(thread, j)),
        v.sync().accessible(thread, a) <==> (forall|j: int|
            0 <= j < v.copies.len() && !(#[trigger] v.copies[j]).completed ==> !v.copies[j].covers(
                a,
            )),
{
    let w = v.sync();
    let keep = |c: AsyncCopy| !c.completed;
    let pos = crate::block::lemma_filter_positions(v.copies, keep);
    crate::block::lemma_sync_wf(v);
    assert forall|j: int| #[trigger] v.governs(j, a) implies (v.accessible(thread, a)
        <==> v.has_waited(thread, j)) by {
        assert forall|k: int| #[trigger] v.governs(k, a) implies k == j by {
            if k < j {
                assert(!v.copies[j].covers(a));
            } else if j < k {
                assert(!v.copies[k].covers(a));
            }
        }
    }
    if w.accessible(thread, a) {
        assert forall|j: int|
            0 <= j < v.copies.len() && !(#[trigger] v.copies[j]).completed implies !v.copies[j].covers(
        a) by {
            v.copies.lemma_filter_contains(keep, j);
            let k = choose|k: int| 0 <= k < w.copies.len() && w.copies[k] == v.copies[j];
            if w.copies[k].covers(a) {
                crate::block::lemma_uncompleted_governs(w, k, a);
            }
        }
    }
    if forall|j: int|
        0 <= j < v.copies.len() && !(#[trigger] v.copies[j]).completed ==> !v.copies[j].covers(a) {
        assert forall|k: int| #[trigger] w.governs(k, a) implies w.has_waited(thread, k) by {
            assert(w.copies[k] == v.copies[pos[k]]);
        }
    }
}

/// Issuing a copy takes no access to an address outside its destination away.
proof fn lemma_issue_keeps_access(
    v: BlockView,
    thread: int,
    dst: int,
    src: int,
    width: CopyWidth,
    reader: int,
    a: int,
)
    requires
        v.accessible(reader, a),
        0 <= dst <= usize::MAX,
        !(dst <= a < dst + width.size()),
    ensures
        v.issue(thread, dst, src, width).accessible(reader, a),
{
    let w = v.issue(thread, dst, src, width);
    let n = v.copies.len() as int;
    assert(!w.copies[n].covers(a));
    assert forall|j: int| #[trigger] w.governs(j, a) implies w.has_waited(reader, j) by {
        assert(j < n);
        assert forall|k: int| j < k < n implies !(#[trigger] v.copies[k]).covers(a) by {
            assert(w.copies[k] == v.copies[k]);
        }
        assert(v.governs(j, a));
    }
}

/// Where an 8-byte copy may be issued, so may a 4-byte copy of its first half and, after
/// that, one of its second half.
proof fn lemma_halves_may_be_issued(v: BlockView, thread: int, dst: int, src: int)
    requires
        v.wf(),
        v.may_issue(thread, dst, src, CopyWidth::Eight),
    ensures
        v.may_issue(thread, dst, src, CopyWidth::Four),
        v.issue(thread, dst, src, CopyWidth::Four).may_issue(
            thread,
            dst + 4,
            src + 4,
            CopyWidth::Four,
        ),
{
    let one = v.issue(thread, dst, src, CopyWidth::Four);
    assert(CopyWidth::Four.size() == 4 && CopyWidth::Eight.size() == 8);
    assert(dst % 8 == 0 && src % 8 == 0);
    assert forall|a: int| dst <= a < dst + 4 implies #[trigger] v.accessible(thread, a) by {}
    assert forall|a: int| dst + 4 <= a < dst + 4 + 4 implies #[trigger] one.accessible(
        thread,
        a,
    ) by {
        assert(v.accessible(thread, a));
        lemma_issue_keeps_access(v, thread, dst, src, CopyWidth::Four, thread, a);
    }
}

/// Replacing the two halves of a range one after the other replaces the range.
proof fn lemma_splice_halves(s: Seq<u8>, global: Seq<u8>, dst: int, src: int)
    requires
        0 <= src,
        src + 8 <= global.len(),
    ensures
        splice(
            splice(s, dst, global.subrange(src, src + 4)),
            dst + 4,
            global.subrange(src + 4, src + 8),
        ) == splice(s, dst, global.subrange(src, src + 8)),
{
    assert(splice(
        splice(s, dst, global.subrange(src, src + 4)),
        dst + 4,
        global.subrange(src + 4, src + 8),
    ) =~= splice(s, dst, global.subrange(src, src + 8)));
}

/// Wherever an 8-byte copy may be issued, the two 4-byte copies of its halves may be
/// issued one after the other, and they leave the same bytes.
pub proof fn law_eight_bytes_are_two_fours(v: BlockView, thread: int, dst: int, src: int)
    requires
        v.wf(),
        v.may_issue(thread, dst, src, CopyWidth::Eight),
        v.issued + 1 < u64::MAX,
    ensures
        v.may_issue(thread, dst, src, CopyWidth::Four),
        v.issue(thread, dst, src, CopyWidth::Four).may_issue(
            thread,
            dst + 4,
            src + 4,
            CopyWidth::Four,
        ),
        v.issue(thread, dst, src, CopyWidth::Four).issue(
            thread,
            dst + 4,
            src + 4,
            CopyWidth::Four,
        ).settled() == v.issue(thread, dst, src, CopyWidth::Eight).settled(),
{
    let one = v.issue(thread, dst, src, CopyWidth::Four);
    lemma_halves_may_be_issued(v, thread, dst, src);
    crate::block::lemma_issue_wf(v, thread, dst, src, CopyWidth::Four);
    crate::async_copy::law_issue_acts_as_immediate_copy(v, thread, dst, src, CopyWidth::Four);
    crate::async_copy::law_issue_acts_as_immediate_copy(v, thread, dst, src, CopyWidth::Eight);
    crate::async_copy::law_issue_acts_as_immediate_copy(
        one,
        thread,
        dst + 4,
        src + 4,
        CopyWidth::Four,
    );
    lemma_splice_halves(v.settled(), v.global, dst, src);
}

/// Neither width has a `.cg` variant.
pub proof fn law_no_width_has_cg(width: CopyWidth)
    ensures
        !crate::async_copy::cg_exists(width.size()),
{
}

/// When a copy may be issued, in numbers: the 4 or 8 bytes of both ranges lie inside their
/// memories, both addresses are multiples of 4 or 8, and the thread may access each byte
/// of the destination.
pub proof fn law_conditions_of_issue(v: BlockView, thread: int, dst: int, src: int)
    ensures
        v.may_issue(thread, dst, src, CopyWidth::Four) <==> {
            &&& 0 <= thread < v.groups.len()
            &&& 0 <= dst <= v.shared.len() - 4
            &&& 0 <= src <= v.global.len() - 4
            &&& dst % 4 == 0
            &&& src % 4 == 0
            &&& v.accessible(thread, dst)
            &&& v.accessible(thread, dst + 1)
            &&& v.accessible(thread, dst + 2)
            &&& v.accessible(thread, dst + 3)
        },
        v.may_issue(thread, dst, src, CopyWidth::Eight) <==> {
            &&& 0 <= thread < v.groups.len()
            &&& 0 <= dst <= v.shared.len() - 8
            &&& 0 <= src <= v.global.len() - 8
            &&& dst % 8 == 0
            &&& src % 8 == 0
            &&& v.accessible(thread, dst)
            &&& v.accessible(thread, dst + 1)
            &&& v.accessible(thread, dst + 2)
            &&& v.accessible(thread, dst + 3)
            &&& v.accessible(thread, dst + 4)
            &&& v.accessible(thread, dst + 5)
            &&& v.accessible(thread, dst + 6)
            &&& v.accessible(thread, dst + 7)
        },
{
}

/// A byte of global memory may be written exactly if it is outside the 4 or 8 source bytes
/// of every uncompleted copy.
pub proof fn law_sources_of_uncompleted_copies_are_fixed(v: BlockView, a: int)
    ensures
        v.unread(a) <==> (forall|j: int|
            0 <= j < v.copies.len() && !(#[trigger] v.copies[j]).completed ==> a < v.copies[j].src
                || v.copies[j].src + (if v.copies[j].width is Four {
                4int
            } else {
                8int
            }) <= a),
{
}

/// The settled memory takes the bytes under copies that have not landed from their
/// sources, and all others from shared memory as it is.
pub proof fn law_settled_bytes(v: BlockView, a: int)
    requires
        v.wf(),
        0 <= a < v.shared.len(),
    ensures
        v.settled().len() == v.shared.len(),
        forall|j: int|
            0 <= j < v.copies.len() && !(#[trigger] v.copies[j]).landed && v.copies[j].dst <= a
                < v.copies[j].dst + (if v.copies[j].width is Four {
                4int
            } else {
                8int
            }) ==> v.settled()[a] == v.global[v.copies[j].src + (a - v.copies[j].dst)],
        (forall|j: int|
            0 <= j < v.copies.len() && !(#[trigger] v.copies[j]).landed ==> a < v.copies[j].dst
                || v.copies[j].dst + (if v.copies[j].width is Four {
                4int
            } else {
                8int
            }) <= a) ==> v.settled()[a] == v.shared[a],
{
    let all = |j: int| true;
    assert(v.settled()[a] == v.byte_after(all, a));
    assert forall|j: int|
        0 <= j < v.copies.len() && !(#[trigger] v.copies[j]).landed && v.copies[j].covers(
            a,
        ) implies v.settled()[a] == v.global[v.copies[j].src + (a - v.copies[j].dst)] by {
        assert(v.lands_on(all, j, a));
        crate::block::lemma_byte_after(v, all, j, a);
    }
}

/// Splicing replaces the bytes of a range and keeps all others and the length.
pub proof fn law_splice_replaces_a_range(s: Seq<u8>, start: int, bytes: Seq<u8>)
    requires
        0 <= start,
        start + bytes.len() <= s.len(),
    ensures
        splice(s, start, bytes) == s.subrange(0, start) + bytes + s.subrange(
            start + bytes.len(),
            s.len() as int,
        ),
{
    assert(splice(s, start, bytes) =~= s.subrange(0, start) + bytes + s.subrange(
        start + bytes.len(),
        s.len() as int,
    ));
}

} // verus!
