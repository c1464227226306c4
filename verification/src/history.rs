//! What has become of a copy, told from what the threads have done since it was issued.
//!
//! Nothing here looks into the state of the block. Which waits cover a copy follows from
//! the commits that its issuer has made since, and who may access its destination
//! follows from who has waited and whether the threads have synchronized after that.

use vstd::prelude::*;
use crate::block::AsyncCopy;
use crate::block::BlockView;
use crate::block::CopyWidth;
use crate::laws::Action;
use crate::laws::act;
use crate::laws::carries;
use crate::laws::lemma_action_delivers;
use crate::laws::lemma_group_mark;
use crate::laws::law_copy_is_pending_until_waited_for;
use crate::laws::law_other_threads_need_sync;
use crate::laws::law_run_acts_as_immediate;
use crate::laws::law_wait_delivers;
use crate::laws::no_wait_covers;
use crate::laws::pending;
use crate::laws::permits;
use crate::laws::run;
use crate::laws::run_permitted;
use crate::laws::wait_covers;
use crate::laws::waiter;

verus! {

/// How many groups `thread` commits in a trace.
pub open spec fn commits(trace: Seq<Action>, thread: int) -> int {
    trace.filter(|a: Action| a == Action::Commit { thread }).len() as int
}

/// How many copies are issued in a trace.
pub open spec fn issues(trace: Seq<Action>) -> int {
    trace.filter(|a: Action| a is Issue).len() as int
}

/// Whether `wait`, coming after the actions in `since`, covers a copy that `issuer`
/// issued with the given ticket just before these: the issuer waits for all copies, or it
/// leaves fewer groups pending than it has committed since, or some thread waits on a
/// barrier at which the issuer arrived after the issue.
pub open spec fn covered_since(
    since: Seq<Action>,
    wait: Action,
    issuer: int,
    ticket: int,
) -> bool {
    match wait {
        Action::WaitAll { thread } => thread == issuer,
        Action::WaitGroup { thread, n } => thread == issuer && n < commits(since, issuer),
        Action::WaitArrivals { thread, arrivals } => exists|k: int|
            0 <= k < arrivals.len() && (#[trigger] arrivals[k]).0 == issuer && ticket
                < arrivals[k].1,
        _ => false,
    }
}

/// Whether some wait of a trace covers the copy that was issued just before it.
pub open spec fn waited_for(trace: Seq<Action>, issuer: int, ticket: int) -> bool {
    exists|w: int|
        0 <= w < trace.len() && covered_since(
            trace.take(w),
            #[trigger] trace[w],
            issuer,
            ticket,
        )
}

/// Whether `thread` is the one that waits in an action.
pub open spec fn waits_as(action: Action, thread: int) -> bool {
    match action {
        Action::WaitAll { thread: t } => t == thread,
        Action::WaitGroup { thread: t, n } => t == thread,
        Action::WaitArrivals { thread: t, arrivals } => t == thread,
        _ => false,
    }
}

/// Whether `reader` itself waits in a trace for the copy that was issued just before it.
pub open spec fn waited_for_by(
    trace: Seq<Action>,
    issuer: int,
    ticket: int,
    reader: int,
) -> bool {
    exists|w: int|
        0 <= w < trace.len() && covered_since(
            trace.take(w),
            #[trigger] trace[w],
            issuer,
            ticket,
        ) && waits_as(trace[w], reader)
}

/// Whether the threads synchronize in a trace after some thread has waited for the copy
/// that was issued just before it.
pub open spec fn synchronized_on(trace: Seq<Action>, issuer: int, ticket: int) -> bool {
    exists|s: int|
        0 <= s < trace.len() && (#[trigger] trace[s]) is Sync && waited_for(
            trace.take(s),
            issuer,
            ticket,
        )
}

/// Whether no copy is issued in a trace whose destination holds the address `a`.
pub open spec fn none_issued_to(trace: Seq<Action>, a: int) -> bool {
    forall|i: int|
        0 <= i < trace.len() ==> match #[trigger] trace[i] {
            Action::Issue { thread, dst, src, width } => a < dst || dst + width.bytes_moved() <= a,
            _ => true,
        }
}

impl CopyWidth {
    /// The number of bytes that a copy of this width moves.
    pub open spec fn bytes_moved(self) -> int {
        if self is Four {
            4
        } else {
            8
        }
    }
}

/// Every commit of a thread adds one group to its groups and changes nothing else: after
/// any trace, the thread has its old groups and one more for each of its commits, in
/// order, and the mark of each is the number of copies issued before that commit.
pub proof fn law_commits_add_groups(v: BlockView, trace: Seq<Action>, thread: int)
    requires
        v.wf(),
        run_permitted(v, trace),
        0 <= thread < v.threads(),
    ensures
        run(v, trace).threads() == v.threads(),
        run(v, trace).issued == v.issued + issues(trace),
        run(v, trace).groups[thread].len() == v.groups[thread].len() + commits(trace, thread),
        forall|k: int|
            0 <= k < v.groups[thread].len() ==> #[trigger] run(v, trace).groups[thread][k]
                == v.groups[thread][k],
        forall|p: int|
            0 <= p < trace.len() && #[trigger] trace[p] == (Action::Commit { thread }) ==> run(
                v,
                trace,
            ).groups[thread][v.groups[thread].len() + commits(trace.take(p), thread)] == v.issued
                + issues(trace.take(p)),
        forall|k: int|
            v.groups[thread].len() <= k < run(v, trace).groups[thread].len() ==> v.issued
                <= #[trigger] run(v, trace).groups[thread][k],
    decreases trace.len(),
{
    reveal(Seq::filter);
    if trace.len() > 0 {
        let front = trace.drop_last();
        let u = run(v, front);
        let w = run(v, trace);
        let old_len = v.groups[thread].len();
        law_commits_add_groups(v, front, thread);
        law_run_acts_as_immediate(v, front);
        assert(w == act(u, trace.last()));
        assert(w.groups.len() == u.groups.len());
        if trace.last() == (Action::Commit { thread }) {
            assert(w.groups[thread] == u.groups[thread].push(u.issued as u64));
        } else {
            assert(w.groups[thread] == u.groups[thread]);
        }
        assert forall|p: int|
            0 <= p < trace.len() && #[trigger] trace[p] == (Action::Commit {
                thread,
            }) implies w.groups[thread][old_len + commits(trace.take(p), thread)] == v.issued
            + issues(trace.take(p)) by {
            if p < front.len() {
                assert(front[p] == trace[p]);
                assert(front.take(p) =~= trace.take(p));
                lemma_commits_grow(front, p, thread);
            } else {
                assert(trace.take(p) =~= front);
            }
        }
    }
}

/// A commit raises the count of commits.
proof fn lemma_commits_grow(trace: Seq<Action>, p: int, thread: int)
    requires
        0 <= p < trace.len(),
        trace[p] == (Action::Commit { thread }),
    ensures
        commits(trace.take(p), thread) < commits(trace, thread),
    decreases trace.len(),
{
    reveal(Seq::filter);
    let front = trace.drop_last();
    if p < front.len() {
        lemma_commits_grow(front, p, thread);
        assert(front.take(p) =~= trace.take(p));
    } else {
        assert(trace.take(p) =~= front);
    }
}

/// Which waits cover a copy can be told from the history since its issue.
proof fn lemma_covers_by_history(
    s: BlockView,
    since: Seq<Action>,
    wait: Action,
    issuer: int,
    ticket: int,
)
    requires
        s.wf(),
        run_permitted(s, since),
        permits(run(s, since), wait),
        0 <= issuer < s.threads(),
        s.issued == ticket + 1,
        forall|k: int| 0 <= k < s.groups[issuer].len() ==> #[trigger] s.groups[issuer][k] <= ticket,
    ensures
        wait_covers(run(s, since), wait, issuer, ticket) == covered_since(
            since,
            wait,
            issuer,
            ticket,
        ),
{
    let u = run(s, since);
    law_commits_add_groups(s, since, issuer);
    law_run_acts_as_immediate(s, since);
    match wait {
        Action::WaitGroup { thread, n } => {
            if thread == issuer {
                lemma_group_mark(u, thread, n, ticket);
                let len = u.groups[thread].len();
                if n < len {
                    let k = len - 1 - n;
                    if n < commits(since, issuer) {
                        assert(s.issued <= u.groups[thread][k]);
                    } else {
                        assert(u.groups[thread][k] == s.groups[thread][k]);
                    }
                }
            }
        },
        _ => {},
    }
}

/// That no wait covers a copy can be told from the history since its issue.
proof fn lemma_uncovered_by_history(s: BlockView, trace: Seq<Action>, issuer: int, ticket: int)
    requires
        s.wf(),
        run_permitted(s, trace),
        0 <= issuer < s.threads(),
        s.issued == ticket + 1,
        forall|k: int| 0 <= k < s.groups[issuer].len() ==> #[trigger] s.groups[issuer][k] <= ticket,
    ensures
        no_wait_covers(s, trace, issuer, ticket) == !waited_for(trace, issuer, ticket),
    decreases trace.len(),
{
    if trace.len() > 0 {
        let front = trace.drop_last();
        lemma_uncovered_by_history(s, front, issuer, ticket);
        lemma_covers_by_history(s, front, trace.last(), issuer, ticket);
        lemma_waited_for_step(trace, issuer, ticket);
    }
}

/// A trace waits for a copy if its front does or its last action does.
proof fn lemma_waited_for_step(trace: Seq<Action>, issuer: int, ticket: int)
    requires
        trace.len() > 0,
    ensures
        waited_for(trace, issuer, ticket) <==> waited_for(trace.drop_last(), issuer, ticket)
            || covered_since(trace.drop_last(), trace.last(), issuer, ticket),
        forall|reader: int|
            #[trigger] waited_for_by(trace, issuer, ticket, reader) <==> waited_for_by(
                trace.drop_last(),
                issuer,
                ticket,
                reader,
            ) || (covered_since(trace.drop_last(), trace.last(), issuer, ticket) && waits_as(
                trace.last(),
                reader,
            )),
        synchronized_on(trace, issuer, ticket) <==> synchronized_on(
            trace.drop_last(),
            issuer,
            ticket,
        ) || (trace.last() is Sync && waited_for(trace.drop_last(), issuer, ticket)),
{
    let front = trace.drop_last();
    let n = front.len() as int;
    assert(trace.take(n) =~= front);
    assert(trace[n] == trace.last());
    assert forall|w: int| 0 <= w < n implies #[trigger] trace.take(w) == front.take(w) by {
        assert(trace.take(w) =~= front.take(w));
    }
    assert forall|w: int| 0 <= w < n implies trace[w] == #[trigger] front[w] by {}
    assert forall|w: int| 0 <= w < n implies covered_since(
        trace.take(w),
        #[trigger] trace[w],
        issuer,
        ticket,
    ) == covered_since(front.take(w), front[w], issuer, ticket) by {
        assert(trace.take(w) == front.take(w));
    }
    if waited_for(front, issuer, ticket) {
        let w = choose|w: int|
            0 <= w < front.len() && covered_since(
                front.take(w),
                #[trigger] front[w],
                issuer,
                ticket,
            );
        assert(covered_since(trace.take(w), trace[w], issuer, ticket));
    }
    if waited_for(trace, issuer, ticket) {
        let w = choose|w: int|
            0 <= w < trace.len() && covered_since(
                trace.take(w),
                #[trigger] trace[w],
                issuer,
                ticket,
            );
        if w < n {
            assert(covered_since(front.take(w), front[w], issuer, ticket));
        }
    }
    assert forall|reader: int|
        #[trigger] waited_for_by(trace, issuer, ticket, reader) <==> waited_for_by(
            front,
            issuer,
            ticket,
            reader,
        ) || (covered_since(front, trace.last(), issuer, ticket) && waits_as(
            trace.last(),
            reader,
        )) by {
        if waited_for_by(front, issuer, ticket, reader) {
            let w = choose|w: int|
                0 <= w < front.len() && covered_since(
                    front.take(w),
                    #[trigger] front[w],
                    issuer,
                    ticket,
                ) && waits_as(front[w], reader);
            assert(covered_since(trace.take(w), trace[w], issuer, ticket));
        }
        if waited_for_by(trace, issuer, ticket, reader) {
            let w = choose|w: int|
                0 <= w < trace.len() && covered_since(
                    trace.take(w),
                    #[trigger] trace[w],
                    issuer,
                    ticket,
                ) && waits_as(trace[w], reader);
            if w < n {
                assert(covered_since(front.take(w), front[w], issuer, ticket));
            }
        }
    }
    if synchronized_on(front, issuer, ticket) {
        let s = choose|s: int|
            0 <= s < front.len() && (#[trigger] front[s]) is Sync && waited_for(
                front.take(s),
                issuer,
                ticket,
            );
        assert(trace.take(s) == front.take(s));
        assert(trace[s] is Sync);
    }
    if synchronized_on(trace, issuer, ticket) {
        let s = choose|s: int|
            0 <= s < trace.len() && (#[trigger] trace[s]) is Sync && waited_for(
                trace.take(s),
                issuer,
                ticket,
            );
        if s < n {
            assert(trace.take(s) == front.take(s));
            assert(front[s] is Sync);
        }
    }
}

/// A copy is pending until the issuer has waited for all copies, or has waited leaving
/// fewer groups pending than it has committed since the issue, or a thread has waited on
/// a barrier at which the issuer arrived after the issue. No other action ends it, and
/// none brings it back.
pub proof fn law_history_tells_what_is_pending(
    v: BlockView,
    thread: int,
    dst: int,
    src: int,
    width: CopyWidth,
    trace: Seq<Action>,
)
    requires
        v.wf(),
        permits(v, Action::Issue { thread, dst, src, width }),
        run_permitted(v.issue(thread, dst, src, width), trace),
    ensures
        pending(run(v.issue(thread, dst, src, width), trace), v.issued) <==> !waited_for(
            trace,
            thread,
            v.issued,
        ),
{
    let s = v.issue(thread, dst, src, width);
    crate::block::lemma_issue_wf(v, thread, dst, src, width);
    lemma_uncovered_by_history(s, trace, thread, v.issued);
    law_copy_is_pending_until_waited_for(v, thread, dst, src, width, trace);
}

/// Once the first wait that covers a copy returns, the destination holds the bytes that
/// the source held at the issue, and the thread that waited may access them. In
/// particular a wait that leaves `n` groups pending delivers every copy that its thread
/// issued before the last `n + 1` of its commits or earlier, whatever else has happened
/// in between.
pub proof fn law_history_tells_what_is_delivered(
    v: BlockView,
    thread: int,
    dst: int,
    src: int,
    width: CopyWidth,
    trace: Seq<Action>,
    wait: Action,
    reader: int,
)
    requires
        v.wf(),
        permits(v, Action::Issue { thread, dst, src, width }),
        run_permitted(v.issue(thread, dst, src, width), trace),
        permits(run(v.issue(thread, dst, src, width), trace), wait),
        !waited_for(trace, thread, v.issued),
        covered_since(trace, wait, thread, v.issued),
        waits_as(wait, reader),
    ensures
        act(run(v.issue(thread, dst, src, width), trace), wait).shared.subrange(
            dst,
            dst + width.bytes_moved(),
        ) == v.global.subrange(src, src + width.bytes_moved()),
        forall|a: int|
            dst <= a < dst + width.bytes_moved() ==> #[trigger] act(
                run(v.issue(thread, dst, src, width), trace),
                wait,
            ).accessible(reader, a),
{
    let s = v.issue(thread, dst, src, width);
    crate::block::lemma_issue_wf(v, thread, dst, src, width);
    lemma_uncovered_by_history(s, trace, thread, v.issued);
    lemma_covers_by_history(s, trace, wait, thread, v.issued);
    law_wait_delivers(v, thread, dst, src, width, trace, wait);
    assert(waiter(wait) == reader);
    assert(width.bytes_moved() == width.size());
}

/// A wait that leaves at least as many groups pending as its thread has committed since
/// it issued a copy does not wait for the copy.
pub proof fn law_wait_group_leaves_later_groups(
    v: BlockView,
    thread: int,
    dst: int,
    src: int,
    width: CopyWidth,
    trace: Seq<Action>,
    n: int,
)
    requires
        v.wf(),
        permits(v, Action::Issue { thread, dst, src, width }),
        run_permitted(v.issue(thread, dst, src, width), trace),
        !waited_for(trace, thread, v.issued),
        0 <= n,
    ensures
        pending(
            run(v.issue(thread, dst, src, width), trace).wait_group(thread, n),
            v.issued,
        ) <==> commits(trace, thread) <= n,
{
    let s = v.issue(thread, dst, src, width);
    let wait = Action::WaitGroup { thread, n };
    let all = trace.push(wait);
    crate::block::lemma_issue_wf(v, thread, dst, src, width);
    law_commits_add_groups(s, trace, thread);
    assert(all.drop_last() =~= trace);
    assert(run_permitted(s, all));
    law_history_tells_what_is_pending(v, thread, dst, src, width, all);
    lemma_waited_for_step(all, thread, v.issued);
}

/// Whether copy `j` is `c`, completed, and the last one on the address `a`.
spec fn holds(v: BlockView, j: int, c: AsyncCopy, a: int) -> bool {
    &&& v.governs(j, a)
    &&& v.copies[j] == AsyncCopy { landed: true, completed: true, ..c }
}

/// Whether the last copy on the address `a` is `c`, completed, and waited for by exactly
/// the readers that have done so in a trace.
spec fn held_for_readers(v: BlockView, j: int, c: AsyncCopy, a: int, trace: Seq<Action>) -> bool {
    &&& holds(v, j, c, a)
    &&& forall|reader: int|
        0 <= reader <= usize::MAX ==> (#[trigger] v.has_waited(reader, j) <==> waited_for_by(
            trace,
            c.thread as int,
            c.ticket as int,
            reader,
        ))
}

/// Whether no copy has the address `a` in its destination.
pub open spec fn uncovered(v: BlockView, a: int) -> bool {
    forall|j: int| 0 <= j < v.copies.len() ==> !(#[trigger] v.copies[j]).covers(a)
}

/// A wait adds its thread to those that have waited for a copy exactly if it covers the
/// copy.
proof fn lemma_wait_is_recorded(
    v: BlockView,
    sel: spec_fn(int) -> bool,
    thread: int,
    j: int,
    reader: int,
)
    requires
        v.wf(),
        0 <= j < v.copies.len(),
        0 <= thread <= usize::MAX,
        0 <= reader <= usize::MAX,
    ensures
        v.advance(sel, Some(thread as usize)).has_waited(reader, j) <==> v.has_waited(reader, j)
            || (reader == thread && sel(j)),
{
    let ticket = v.copies[j].ticket;
    if v.selects(sel, ticket) {
        let k = choose|k: int|
            0 <= k < v.copies.len() && sel(k) && (#[trigger] v.copies[k]).ticket == ticket;
        if k < j {
            assert(v.copies[k].ticket < v.copies[j].ticket);
        } else if j < k {
            assert(v.copies[j].ticket < v.copies[k].ticket);
        }
    }
    if sel(j) {
        assert(v.copies[j].ticket == ticket);
        assert(v.selects(sel, ticket));
    }
}

/// What an action that waits does to the copies and to who has waited for copy `j`.
proof fn lemma_wait_effect(v: BlockView, action: Action, j: int)
    requires
        v.wf(),
        permits(v, action),
        action is WaitAll || action is WaitGroup || action is WaitArrivals,
        0 <= j < v.copies.len(),
    ensures
        act(v, action).copies.len() == v.copies.len(),
        forall|k: int|
            0 <= k < v.copies.len() ==> (#[trigger] act(v, action).copies[k]).dst == v.copies[k].dst
                && act(v, action).copies[k].width == v.copies[k].width,
        act(v, action).copies[j] == (if wait_covers(
            v,
            action,
            v.copies[j].thread as int,
            v.copies[j].ticket as int,
        ) {
            v.copies[j].advance(true)
        } else {
            v.copies[j]
        }),
        forall|reader: int|
            0 <= reader <= usize::MAX ==> (#[trigger] act(v, action).has_waited(reader, j)
                <==> v.has_waited(reader, j) || (waits_as(action, reader) && wait_covers(
                v,
                action,
                v.copies[j].thread as int,
                v.copies[j].ticket as int,
            ))),
{
    let c = v.copies[j];
    let w = act(v, action);
    assert(v.copy_ok(j));
    match action {
        Action::WaitAll { thread } => {
            let sel = v.issued_before(thread, v.issued);
            assert(sel(j) == wait_covers(v, action, c.thread as int, c.ticket as int));
            assert forall|reader: int| 0 <= reader <= usize::MAX implies (
            #[trigger] w.has_waited(reader, j) <==> v.has_waited(reader, j) || (waits_as(
                action,
                reader,
            ) && sel(j))) by {
                lemma_wait_is_recorded(v, sel, thread, j, reader);
            }
        },
        Action::WaitGroup { thread, n } => {
            let marks = v.groups[thread];
            lemma_group_mark(v, thread, n, c.ticket as int);
            if n < marks.len() {
                let sel = v.issued_before(thread, marks[marks.len() - 1 - n] as int);
                assert(sel(j) == wait_covers(v, action, c.thread as int, c.ticket as int));
                assert forall|reader: int| 0 <= reader <= usize::MAX implies (
                #[trigger] w.has_waited(reader, j) <==> v.has_waited(reader, j) || (waits_as(
                    action,
                    reader,
                ) && sel(j))) by {
                    lemma_wait_is_recorded(v, sel, thread, j, reader);
                }
            }
        },
        Action::WaitArrivals { thread, arrivals } => {
            let sel = v.tracked_by(arrivals);
            assert(sel(j) == v.tracks(arrivals, j));
            assert(sel(j) == wait_covers(v, action, c.thread as int, c.ticket as int));
            assert forall|reader: int| 0 <= reader <= usize::MAX implies (
            #[trigger] w.has_waited(reader, j) <==> v.has_waited(reader, j) || (waits_as(
                action,
                reader,
            ) && sel(j))) by {
                lemma_wait_is_recorded(v, sel, thread, j, reader);
            }
        },
        _ => {},
    }
}

/// An action that issues no copy to an address on which no copy lies leaves it so.
proof fn lemma_stays_uncovered(v: BlockView, action: Action, a: int)
    requires
        v.wf(),
        permits(v, action),
        uncovered(v, a),
        action matches Action::Issue { thread, dst, src, width } ==> a < dst || dst
            + width.bytes_moved() <= a,
    ensures
        uncovered(act(v, action), a),
{
    let w = act(v, action);
    assert forall|j: int| 0 <= j < w.copies.len() implies !(#[trigger] w.copies[j]).covers(a) by {
        match action {
            Action::Sync => {
                let pos = crate::block::lemma_filter_positions(
                    v.copies,
                    |c: AsyncCopy| !c.completed,
                );
                assert(!v.copies[pos[j]].covers(a));
            },
            _ => {
                if j < v.copies.len() {
                    assert(!v.copies[j].covers(a));
                }
            },
        }
    }
}

/// A completed copy stays the last one on an address to which no copy is issued, until
/// the threads synchronize, and then no copy is left there.
proof fn lemma_held_step(v: BlockView, action: Action, j: int, c: AsyncCopy, a: int)
    requires
        v.wf(),
        permits(v, action),
        holds(v, j, c, a),
        action matches Action::Issue { thread, dst, src, width } ==> a < dst || dst
            + width.bytes_moved() <= a,
    ensures
        action is Sync ==> uncovered(act(v, action), a),
        !(action is Sync) ==> holds(act(v, action), j, c, a),
        !(action is Sync) ==> forall|reader: int|
            0 <= reader <= usize::MAX ==> (#[trigger] act(v, action).has_waited(reader, j)
                <==> v.has_waited(reader, j) || (waits_as(action, reader) && wait_covers(
                v,
                action,
                c.thread as int,
                c.ticket as int,
            ))),
{
    let w = act(v, action);
    assert(v.copies[j].covers(a));
    if action is Sync {
        let pos = crate::block::lemma_filter_positions(v.copies, |c: AsyncCopy| !c.completed);
        assert forall|k: int| 0 <= k < w.copies.len() implies !(
        #[trigger] w.copies[k]).covers(a) by {
            let i = pos[k];
            assert(w.copies[k] == v.copies[i]);
            if v.copies[i].covers(a) {
                if i < j {
                    assert(!v.copies[i].disjoint(v.copies[j]));
                } else if j < i {
                    assert(!v.copies[i].covers(a));
                }
            }
        }
    } else {
        if action is WaitAll || action is WaitGroup || action is WaitArrivals {
            lemma_wait_effect(v, action, j);
        }
        assert(w.copies[j] == v.copies[j]);
        assert forall|k: int| j < k < w.copies.len() implies !(
        #[trigger] w.copies[k]).covers(a) by {
            if k < v.copies.len() {
                assert(!v.copies[k].covers(a));
            }
        }
        assert(w.governs(j, a));
    }
}

/// An uncompleted copy that a wait covers is then held for the thread that waited.
proof fn lemma_first_wait(v: BlockView, action: Action, j: int, c: AsyncCopy, a: int)
    requires
        v.wf(),
        permits(v, action),
        carries(v, j, c),
        c.covers(a),
        wait_covers(v, action, c.thread as int, c.ticket as int),
    ensures
        holds(act(v, action), j, c, a),
        forall|reader: int|
            0 <= reader <= usize::MAX ==> (#[trigger] act(v, action).has_waited(reader, j)
                <==> waits_as(action, reader)),
{
    let w = act(v, action);
    assert(v.copy_ok(j));
    lemma_wait_effect(v, action, j);
    crate::block::lemma_uncompleted_governs(v, j, a);
    assert forall|k: int| j < k < w.copies.len() implies !(#[trigger] w.copies[k]).covers(a) by {
        assert(!v.copies[k].covers(a));
    }
    assert(w.governs(j, a));
    assert forall|reader: int| 0 <= reader <= usize::MAX implies (
    #[trigger] w.has_waited(reader, j) <==> waits_as(action, reader)) by {
        assert(!v.waited.contains((reader as usize, v.copies[j].ticket)));
    }
}

/// Where a copy stands on one of its addresses after a trace that issues no other copy
/// there: it is uncompleted until it is waited for, then held for those who have waited,
/// and gone once the threads have synchronized on it.
proof fn lemma_stage(s: BlockView, trace: Seq<Action>, j: int, c: AsyncCopy, a: int) -> (k: int)
    requires
        s.wf(),
        run_permitted(s, trace),
        carries(s, j, c),
        c.covers(a),
        none_issued_to(trace, a),
        c.thread < s.threads(),
        s.issued == c.ticket + 1,
        forall|m: int|
            0 <= m < s.groups[c.thread as int].len() ==> #[trigger] s.groups[c.thread as int][m]
                <= c.ticket,
    ensures
        run(s, trace).wf(),
        !waited_for(trace, c.thread as int, c.ticket as int) ==> carries(run(s, trace), k, c)
            && !synchronized_on(trace, c.thread as int, c.ticket as int),
        waited_for(trace, c.thread as int, c.ticket as int) && !synchronized_on(
            trace,
            c.thread as int,
            c.ticket as int,
        ) ==> held_for_readers(run(s, trace), k, c, a, trace),
        synchronized_on(trace, c.thread as int, c.ticket as int) ==> uncovered(run(s, trace), a),
    decreases trace.len(),
{
    law_run_acts_as_immediate(s, trace);
    if trace.len() == 0 {
        j
    } else {
        let front = trace.drop_last();
        let last = trace.last();
        let issuer = c.thread as int;
        let ticket = c.ticket as int;
        let u = run(s, front);
        let w = run(s, trace);
        assert(none_issued_to(front, a)) by {
            assert forall|i: int| 0 <= i < front.len() implies match #[trigger] front[i] {
                Action::Issue { thread, dst, src, width } => a < dst || dst + width.bytes_moved()
                    <= a,
                _ => true,
            } by {
                assert(front[i] == trace[i]);
            }
        }
        assert(last == trace[trace.len() - 1]);
        let k = lemma_stage(s, front, j, c, a);
        lemma_waited_for_step(trace, issuer, ticket);
        lemma_covers_by_history(s, front, last, issuer, ticket);
        if !waited_for(front, issuer, ticket) {
            assert forall|reader: int| !waited_for_by(front, issuer, ticket, reader) by {
                if waited_for_by(front, issuer, ticket, reader) {
                    let x = choose|x: int|
                        0 <= x < front.len() && covered_since(
                            front.take(x),
                            #[trigger] front[x],
                            issuer,
                            ticket,
                        ) && waits_as(front[x], reader);
                    assert(covered_since(front.take(x), front[x], issuer, ticket));
                }
            }
            if covered_since(front, last, issuer, ticket) {
                lemma_first_wait(u, last, k, c, a);
                assert(held_for_readers(w, k, c, a, trace));
                k
            } else {
                lemma_action_delivers(u, last, k, c);
                choose|i: int| carries(w, i, c)
            }
        } else if !synchronized_on(front, issuer, ticket) {
            lemma_held_step(u, last, k, c, a);
            if !(last is Sync) {
                assert(held_for_readers(w, k, c, a, trace));
            }
            k
        } else {
            lemma_stays_uncovered(u, last, a);
            k
        }
    }
}

/// Who may access the destination of a copy: after any trace in which no other copy is
/// issued to the address, a thread may access it exactly if it has waited for the copy
/// itself, or if the threads have synchronized after some thread had waited for it.
pub proof fn law_history_tells_who_has_access(
    v: BlockView,
    thread: int,
    dst: int,
    src: int,
    width: CopyWidth,
    trace: Seq<Action>,
    reader: int,
    a: int,
)
    requires
        v.wf(),
        permits(v, Action::Issue { thread, dst, src, width }),
        run_permitted(v.issue(thread, dst, src, width), trace),
        dst <= a < dst + width.bytes_moved(),
        none_issued_to(trace, a),
        0 <= reader < v.threads(),
    ensures
        run(v.issue(thread, dst, src, width), trace).accessible(reader, a) <==> waited_for_by(
            trace,
            thread,
            v.issued,
            reader,
        ) || synchronized_on(trace, thread, v.issued),
{
    let s = v.issue(thread, dst, src, width);
    let n = v.copies.len() as int;
    let c = s.copies.last();
    let u = run(s, trace);
    crate::block::lemma_issue_wf(v, thread, dst, src, width);
    assert(carries(s, n, c));
    let k = lemma_stage(s, trace, n, c, a);
    if waited_for_by(trace, thread, v.issued, reader) {
        let w = choose|w: int|
            0 <= w < trace.len() && covered_since(
                trace.take(w),
                #[trigger] trace[w],
                thread,
                v.issued,
            ) && waits_as(trace[w], reader);
        assert(covered_since(trace.take(w), trace[w], thread, v.issued));
        assert(waited_for(trace, thread, v.issued));
    }
    if !waited_for(trace, thread, v.issued) {
        crate::block::lemma_uncompleted_governs(u, k, a);
    } else if !synchronized_on(trace, thread, v.issued) {
        law_other_threads_need_sync(u, reader, a);
        assert(u.governs(k, a));
    }
}

/// An address to which no copy has been issued is open to every thread.
pub proof fn law_addresses_without_copies_stay_open(
    v: BlockView,
    trace: Seq<Action>,
    reader: int,
    a: int,
)
    requires
        v.wf(),
        run_permitted(v, trace),
        uncovered(v, a),
        none_issued_to(trace, a),
    ensures
        uncovered(run(v, trace), a),
        run(v, trace).accessible(reader, a),
    decreases trace.len(),
{
    if trace.len() > 0 {
        let front = trace.drop_last();
        assert(none_issued_to(front, a)) by {
            assert forall|i: int| 0 <= i < front.len() implies match #[trigger] front[i] {
                Action::Issue { thread, dst, src, width } => a < dst || dst + width.bytes_moved()
                    <= a,
                _ => true,
            } by {
                assert(front[i] == trace[i]);
            }
        }
        assert(trace.last() == trace[trace.len() - 1]);
        law_addresses_without_copies_stay_open(v, front, reader, a);
        law_run_acts_as_immediate(v, front);
        lemma_stays_uncovered(run(v, front), trace.last(), a);
    }
}

/// A barrier tracks the copies that a thread issued before it arrived and none that it
/// issued afterwards: the number of copies issued so far, which an arrival records, is
/// above the ticket of every earlier copy and not above that of any later one.
pub proof fn law_arrival_separates_earlier_from_later_copies(
    v: BlockView,
    thread: int,
    dst: int,
    src: int,
    width: CopyWidth,
    before: Seq<Action>,
    after: Seq<Action>,
)
    requires
        v.wf(),
        run_permitted(v, before),
        permits(run(v, before), Action::Issue { thread, dst, src, width }),
        run_permitted(run(v, before).issue(thread, dst, src, width), after),
    ensures
        v.issued <= run(v, before).issued,
        run(v, before).issue(thread, dst, src, width).copies.last().ticket == run(
            v,
            before,
        ).issued,
        run(v, before).issued < run(run(v, before).issue(thread, dst, src, width), after).issued,
{
    let u = run(v, before);
    law_run_acts_as_immediate(v, before);
    crate::block::lemma_issue_wf(u, thread, dst, src, width);
    law_commits_add_groups(u.issue(thread, dst, src, width), after, thread);
    crate::laws::lemma_issued_grows(v, before);
}

} // verus!
