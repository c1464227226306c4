//! Asynchronous copies (`cp.async`) from global to shared memory with the `.ca`
//! (cache-all-levels) cache policy.
//!
//! | Function          | Bytes | Cache | PTX                                            |
//! |-------------------|-------|-------|------------------------------------------------|
//! | [`cp_async_ca_4`] | 4     | `.ca` | `cp.async.ca.shared.global [smem], [gmem], 4;` |
//! | [`cp_async_ca_8`] | 8     | `.ca` | `cp.async.ca.shared.global [smem], [gmem], 8;` |
//!
//! The `.cg` (cache-global) policy exists for 16-byte copies only, so the 4-byte and
//! 8-byte copies are `.ca`.
//!
//! A copy is completed by [`cp_async_wait_all`], by [`cp_async_commit_group`] followed
//! by a matching [`cp_async_wait_group`], or by [`mbarrier_wait`] on an [`Mbarrier`]
//! that tracks it.

use vstd::prelude::*;
use crate::block::AsyncCopy;
use crate::block::BlockView;
use crate::block::CopyWidth;
use crate::block::ThreadBlock;
use crate::block::lemma_byte_after;
use crate::block::lemma_byte_agrees;
use crate::block::lemma_advance_compose;
use crate::block::lemma_advance_same;
use crate::block::lemma_issue_wf;
use crate::block::splice;
use crate::laws::Action;
use crate::laws::law_action_acts_as_immediate;

verus! {

impl CopyWidth {
    /// The last operand of the PTX instruction.
    pub open spec fn operand(self) -> Seq<char> {
        match self {
            CopyWidth::Four => "4"@,
            CopyWidth::Eight => "8"@,
        }
    }

    /// The text of the PTX instruction for the operands `smem` and `gmem`.
    pub open spec fn ptx_text(self, smem: Seq<char>, gmem: Seq<char>) -> Seq<char> {
        "cp.async.ca.shared.global ["@ + smem + "], ["@ + gmem + "], "@ + self.operand() + ";"@
    }

    /// The PTX instruction that a copy of this width stands for, with the names of the
    /// registers that hold the shared-memory and the global-memory address.
    pub fn ptx(self, smem: &str, gmem: &str) -> (text: String)
        ensures
            text@ == self.ptx_text(smem@, gmem@),
            self is Four ==> text@ == "cp.async.ca.shared.global ["@ + smem@ + "], ["@ + gmem@
                + "], 4;"@,
            self is Eight ==> text@ == "cp.async.ca.shared.global ["@ + smem@ + "], ["@ + gmem@
                + "], 8;"@,
    {
        let mut text = String::new();
        text.append("cp.async.ca.shared.global [");
        text.append(smem);
        text.append("], [");
        text.append(gmem);
        text.append("], ");
        match self {
            CopyWidth::Four => text.append("4"),
            CopyWidth::Eight => text.append("8"),
        }
        text.append(";");
        assert(text@ =~= self.ptx_text(smem@, gmem@));
        proof {
            reveal_strlit("4");
            reveal_strlit("8");
            reveal_strlit(";");
            reveal_strlit("], ");
            reveal_strlit("], 4;");
            reveal_strlit("], 8;");
            assert("], 4;"@ =~= "], "@ + "4"@ + ";"@);
            assert("], 8;"@ =~= "], "@ + "8"@ + ";"@);
            let head = "cp.async.ca.shared.global ["@ + smem@ + "], ["@ + gmem@;
            assert(head + "], "@ + self.operand() + ";"@ =~= head + ("], "@ + self.operand()
                + ";"@));
        }
        text
    }
}

/// Whatever the operands are called, the instruction names the shared-memory address in
/// the first brackets and the global-memory address in the second, and ends with the
/// width.
pub proof fn law_ptx_names_destination_then_source(
    width: CopyWidth,
    smem: Seq<char>,
    gmem: Seq<char>,
)
    ensures
        width.ptx_text(smem, gmem).len() == smem.len() + gmem.len() + 36,
        width.ptx_text(smem, gmem).subrange(0, 27) == "cp.async.ca.shared.global ["@,
        width.ptx_text(smem, gmem).subrange(27, 27int + smem.len()) == smem,
        width.ptx_text(smem, gmem).subrange(27int + smem.len(), 31int + smem.len()) == "], ["@,
        width.ptx_text(smem, gmem).subrange(31int + smem.len(), 31int + smem.len() + gmem.len()) == gmem,
        width.ptx_text(smem, gmem).subrange(
            31int + smem.len() + gmem.len(),
            36int + smem.len() + gmem.len(),
        ) == (match width {
            CopyWidth::Four => "], 4;"@,
            CopyWidth::Eight => "], 8;"@,
        }),
{
    let text = width.ptx_text(smem, gmem);
    let m: int = 27int + smem.len();
    let e: int = 31int + smem.len() + gmem.len();
    reveal_strlit("cp.async.ca.shared.global [");
    reveal_strlit("], [");
    reveal_strlit("], ");
    reveal_strlit("4");
    reveal_strlit("8");
    reveal_strlit(";");
    reveal_strlit("], 4;");
    reveal_strlit("], 8;");
    assert("cp.async.ca.shared.global ["@.len() == 27);
    assert(text.len() == e + 5);
    assert(text.subrange(0, 27) =~= "cp.async.ca.shared.global ["@);
    assert(text.subrange(27, m) =~= smem);
    assert(text.subrange(m, m + 4) =~= "], ["@);
    assert(text.subrange(m + 4, e) =~= gmem);
    match width {
        CopyWidth::Four => {
            assert(text.subrange(e, e + 5) =~= "], 4;"@);
        },
        CopyWidth::Eight => {
            assert(text.subrange(e, e + 5) =~= "], 8;"@);
        },
    }
}

/// Whether the `.cg` cache policy exists for a copy of `bytes` bytes.
pub open spec fn cg_exists(bytes: int) -> bool {
    bytes == 16
}

/// Whether the `.cg` cache policy exists for a copy of `bytes` bytes.
pub fn cg_supports(bytes: usize) -> (yes: bool)
    ensures
        yes == cg_exists(bytes as int),
        yes == (bytes == 16),
{
    bytes == 16
}

impl BlockView {
    /// The state after `thread` has waited for all of its copies.
    pub open spec fn wait_all(self, thread: int) -> BlockView {
        self.complete_below(thread, self.issued, thread)
    }

    /// The state after `thread` has waited until at most the `n` groups that it
    /// committed last are pending.
    pub open spec fn wait_group(self, thread: int, n: int) -> BlockView {
        let marks = self.groups[thread];
        if n < marks.len() {
            self.complete_below(thread, marks[marks.len() - 1 - n] as int, thread)
        } else {
            self
        }
    }

    /// Whether a barrier with the given arrivals tracks copy `j`.
    pub open spec fn tracks(self, arrivals: Seq<(usize, u64)>, j: int) -> bool {
        exists|k: int|
            0 <= k < arrivals.len() && (#[trigger] arrivals[k]).0 == self.copies[j].thread
                && self.copies[j].ticket < arrivals[k].1
    }

    /// The state after `thread` has waited for the copies that a barrier with the given
    /// arrivals tracks.
    pub open spec fn wait_arrivals(self, thread: int, arrivals: Seq<(usize, u64)>) -> BlockView {
        self.advance(self.tracked_by(arrivals), Some(thread as usize))
    }

    /// Selects the copies that a barrier with the given arrivals tracks.
    pub open spec fn tracked_by(self, arrivals: Seq<(usize, u64)>) -> spec_fn(int) -> bool {
        |j: int| self.tracks(arrivals, j)
    }
}

/// Once every copy has landed, shared memory holds what an immediate copy would have
/// put there: issuing a copy replaces the destination by the source and changes no
/// other byte.
pub proof fn law_issue_acts_as_immediate_copy(
    v: BlockView,
    thread: int,
    dst: int,
    src: int,
    width: CopyWidth,
)
    requires
        v.wf(),
        v.may_issue(thread, dst, src, width),
        v.issued < u64::MAX,
    ensures
        v.issue(thread, dst, src, width).settled() == splice(
            v.settled(),
            dst,
            v.global.subrange(src, src + width.size()),
        ),
{
    let w = v.issue(thread, dst, src, width);
    let n = v.copies.len() as int;
    let all = |j: int| true;
    lemma_issue_wf(v, thread, dst, src, width);
    assert forall|a: int| 0 <= a < v.shared.len() implies w.byte_after(all, a) == splice(
        v.settled(),
        dst,
        v.global.subrange(src, src + width.size()),
    )[a] by {
        if dst <= a < dst + width.size() {
            assert(w.lands_on(all, n, a));
            lemma_byte_after(w, all, n, a);
        } else {
            lemma_byte_agrees(v, all, w, all, a);
        }
    }
    assert(w.settled() =~= splice(
        v.settled(),
        dst,
        v.global.subrange(src, src + width.size()),
    ));
}

/// Initiates an asynchronous copy of 4 bytes from global memory (`global_src`) to
/// shared memory (`shared_dst`) by `thread`, with the `.ca` cache policy.
///
/// Both addresses are aligned to 4 bytes, and the thread may access the destination.
/// Until the copy is completed, no thread may access the destination, no other copy
/// may be issued to it, and the source may not be modified. After that, the threads that
/// have waited for it may access the destination, and all threads may once they have
/// synchronized.
pub fn cp_async_ca_4(block: &mut ThreadBlock, thread: usize, shared_dst: usize, global_src: usize)
    requires
        old(block)@.wf(),
        old(block)@.may_issue(
            thread as int,
            shared_dst as int,
            global_src as int,
            CopyWidth::Four,
        ),
        old(block)@.issued < u64::MAX,
    ensures
        final(block)@.wf(),
        final(block)@ == old(block)@.issue(
            thread as int,
            shared_dst as int,
            global_src as int,
            CopyWidth::Four,
        ),
        final(block)@ == (BlockView {
            copies: old(block)@.copies.push(
                AsyncCopy {
                    thread,
                    ticket: old(block)@.issued as u64,
                    dst: shared_dst,
                    src: global_src,
                    width: CopyWidth::Four,
                    landed: false,
                    completed: false,
                },
            ),
            issued: old(block)@.issued + 1,
            ..old(block)@
        }),
        final(block)@.settled() == splice(
            old(block)@.settled(),
            shared_dst as int,
            old(block)@.global.subrange(global_src as int, global_src + 4),
        ),
{
    let ghost v = block@;
    block.issue(thread, shared_dst, global_src, CopyWidth::Four);
    proof {
        law_issue_acts_as_immediate_copy(
            v,
            thread as int,
            shared_dst as int,
            global_src as int,
            CopyWidth::Four,
        );
    }
}

/// Initiates an asynchronous copy of 8 bytes from global memory (`global_src`) to
/// shared memory (`shared_dst`) by `thread`, with the `.ca` cache policy.
///
/// Both addresses are aligned to 8 bytes, and the thread may access the destination.
/// Until the copy is completed, no thread may access the destination, no other copy
/// may be issued to it, and the source may not be modified. After that, the threads that
/// have waited for it may access the destination, and all threads may once they have
/// synchronized.
pub fn cp_async_ca_8(block: &mut ThreadBlock, thread: usize, shared_dst: usize, global_src: usize)
    requires
        old(block)@.wf(),
        old(block)@.may_issue(
            thread as int,
            shared_dst as int,
            global_src as int,
            CopyWidth::Eight,
        ),
        old(block)@.issued < u64::MAX,
    ensures
        final(block)@.wf(),
        final(block)@ == old(block)@.issue(
            thread as int,
            shared_dst as int,
            global_src as int,
            CopyWidth::Eight,
        ),
        final(block)@ == (BlockView {
            copies: old(block)@.copies.push(
                AsyncCopy {
                    thread,
                    ticket: old(block)@.issued as u64,
                    dst: shared_dst,
                    src: global_src,
                    width: CopyWidth::Eight,
                    landed: false,
                    completed: false,
                },
            ),
            issued: old(block)@.issued + 1,
            ..old(block)@
        }),
        final(block)@.settled() == splice(
            old(block)@.settled(),
            shared_dst as int,
            old(block)@.global.subrange(global_src as int, global_src + 8),
        ),
{
    let ghost v = block@;
    block.issue(thread, shared_dst, global_src, CopyWidth::Eight);
    proof {
        law_issue_acts_as_immediate_copy(
            v,
            thread as int,
            shared_dst as int,
            global_src as int,
            CopyWidth::Eight,
        );
    }
}

/// Puts the copies that `thread` has issued since its last commit into a new group
/// (`cp.async.commit_group`).
pub fn cp_async_commit_group(block: &mut ThreadBlock, thread: usize)
    requires
        old(block)@.wf(),
        thread < old(block)@.threads(),
    ensures
        final(block)@.wf(),
        final(block)@ == old(block)@.commit_group(thread as int),
        final(block)@ == (BlockView {
            groups: old(block)@.groups.update(
                thread as int,
                old(block)@.groups[thread as int].push(old(block)@.issued as u64),
            ),
            ..old(block)@
        }),
        final(block)@.settled() == old(block)@.settled(),
{
    let ghost v = block@;
    block.commit(thread);
    proof {
        law_action_acts_as_immediate(v, Action::Commit { thread: thread as int });
    }
}

/// Waits until at most the `n` groups that `thread` committed last are pending
/// (`cp.async.wait_group n`). Copies that are in no group, and those of other
/// threads, are not waited for.
///
/// This stands for a wait across which no memory access moves: one written as inline
/// assembly clobbers memory.
pub fn cp_async_wait_group(block: &mut ThreadBlock, thread: usize, n: usize)
    requires
        old(block)@.wf(),
        thread < old(block)@.threads(),
    ensures
        final(block)@.wf(),
        final(block)@ == old(block)@.wait_group(thread as int, n as int),
        final(block)@ == (BlockView {
            shared: final(block)@.shared,
            copies: final(block)@.copies,
            waited: final(block)@.waited,
            ..old(block)@
        }),
        final(block)@.settled() == old(block)@.settled(),
{
    proof {
        law_action_acts_as_immediate(
            block@,
            Action::WaitGroup { thread: thread as int, n: n as int },
        );
    }
    let count: usize = block.group_count(thread);
    if n < count {
        let mark: u64 = block.group_mark(thread, count - 1 - n);
        block.complete_below(thread, mark, thread);
    }
}

/// Waits for all copies that `thread` has issued (`cp.async.wait_all`). Those of other
/// threads are not waited for.
///
/// This stands for a wait across which no memory access moves: one written as inline
/// assembly clobbers memory.
pub fn cp_async_wait_all(block: &mut ThreadBlock, thread: usize)
    requires
        old(block)@.wf(),
        thread < old(block)@.threads(),
    ensures
        final(block)@.wf(),
        final(block)@ == old(block)@.wait_all(thread as int),
        final(block)@ == (BlockView {
            shared: final(block)@.shared,
            copies: final(block)@.copies,
            waited: final(block)@.waited,
            ..old(block)@
        }),
        final(block)@.settled() == old(block)@.settled(),
{
    proof {
        law_action_acts_as_immediate(block@, Action::WaitAll { thread: thread as int });
    }
    let mark: u64 = block.issued();
    block.complete_below(thread, mark, thread);
}

/// A barrier object in shared memory that tracks asynchronous copies.
#[derive(Debug)]
pub struct Mbarrier {
    arrivals: Vec<(usize, u64)>,
}

impl View for Mbarrier {
    type V = Seq<(usize, u64)>;

    /// The arrivals: a thread, and how many copies the block had issued when the thread
    /// arrived.
    closed spec fn view(&self) -> Seq<(usize, u64)> {
        self.arrivals@
    }
}

impl Mbarrier {
    /// A barrier that tracks no copy.
    pub fn new() -> (bar: Mbarrier)
        ensures
            bar@ == Seq::<(usize, u64)>::empty(),
    {
        Mbarrier { arrivals: Vec::new() }
    }
}

/// Makes the barrier track all copies that `thread` has issued so far
/// (`cp.async.mbarrier.arrive`).
pub fn cp_async_mbarrier_arrive(block: &ThreadBlock, thread: usize, bar: &mut Mbarrier)
    requires
        block@.wf(),
        thread < block@.threads(),
    ensures
        final(bar)@ == old(bar)@.push((thread, block@.issued as u64)),
{
    bar.arrivals.push((thread, block.issued()));
}

/// Makes `thread` wait for the copies that the barrier tracks. Their destinations are
/// then open to `thread`, whoever issued them, and to no other thread that has not
/// waited for them itself.
///
/// This stands for a wait across which no memory access moves: one written as inline
/// assembly clobbers memory.
pub fn mbarrier_wait(block: &mut ThreadBlock, thread: usize, bar: &Mbarrier)
    requires
        old(block)@.wf(),
        thread < old(block)@.threads(),
    ensures
        final(block)@.wf(),
        final(block)@ == old(block)@.wait_arrivals(thread as int, bar@),
        final(block)@ == (BlockView {
            shared: final(block)@.shared,
            copies: final(block)@.copies,
            waited: final(block)@.waited,
            ..old(block)@
        }),
        forall|j: int|
            0 <= j < old(block)@.copies.len() && #[trigger] old(block)@.tracks(bar@, j)
                ==> final(block)@.copies[j].completed && final(block)@.has_waited(thread as int, j),
        final(block)@.settled() == old(block)@.settled(),
{
    let ghost v = block@;
    let ghost arrivals = bar@;
    proof {
        law_action_acts_as_immediate(v, Action::WaitArrivals { thread: thread as int, arrivals });
    }
    let mut i: usize = 0;
    proof {
        let none = v.tracked_by(arrivals.take(0));
        assert forall|a: int, j: int| !#[trigger] v.lands_on(none, j, a) by {}
        assert(v.advance(none, Some(thread)).waited =~= v.waited);
        assert(v =~= v.advance(none, Some(thread)));
    }
    while i < bar.arrivals.len()
        invariant
            i <= bar.arrivals@.len(),
            arrivals == bar.arrivals@,
            v.wf(),
            block@.wf(),
            block@ == v.advance(v.tracked_by(arrivals.take(i as int)), Some(thread)),
        decreases bar.arrivals.len() - i,
    {
        let (issuer, mark) = bar.arrivals[i];
        let ghost w = block@;
        let ghost done = v.tracked_by(arrivals.take(i as int));
        let ghost next = v.tracked_by(arrivals.take(i + 1));
        block.complete_below(issuer, mark, thread);
        proof {
            let here = w.issued_before(issuer as int, mark as int);
            lemma_advance_compose(v, done, here, Some(thread));
            assert forall|j: int| #![trigger v.copies[j]] 0 <= j < v.copies.len() implies (done(j)
                || here(j)) == next(j) by {
                let before = arrivals.take(i as int);
                let after = arrivals.take(i + 1);
                if done(j) {
                    let k = choose|k: int|
                        0 <= k < before.len() && (#[trigger] before[k]).0 == v.copies[j].thread
                            && v.copies[j].ticket < before[k].1;
                    assert(after[k] == before[k]);
                }
                if here(j) {
                    assert(after[i as int] == (issuer, mark));
                }
                if next(j) {
                    let k = choose|k: int|
                        0 <= k < after.len() && (#[trigger] after[k]).0 == v.copies[j].thread
                            && v.copies[j].ticket < after[k].1;
                    if k < i {
                        assert(before[k] == after[k]);
                    }
                }
            }
            lemma_advance_same(v, |j: int| done(j) || here(j), next, Some(thread));
            assert(block@ == v.advance(next, Some(thread)));
        }
        i += 1;
    }
    assert(arrivals.take(i as int) =~= arrivals);
    proof {
        let sel = v.tracked_by(arrivals);
        assert forall|j: int| 0 <= j < v.copies.len() && #[trigger] v.tracks(arrivals, j) implies
            block@.copies[j].completed && block@.has_waited(thread as int, j) by {
            assert(sel(j));
            assert(v.selects(sel, v.copies[j].ticket));
        }
    }
}

} // verus!
