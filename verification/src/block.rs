//! A thread block with its two memory spaces and its asynchronous copies.
//!
//! Shared memory and global memory are byte arrays, and an address is an offset
//! into one of them. The bytes of an asynchronous copy may land at any moment
//! after it was issued, in any order with respect to other copies. The copy is
//! completed once a thread has waited for it: its bytes have landed by then. A
//! thread may access them once it has waited itself, or once the threads of the
//! block have synchronized after the completion.

use vstd::prelude::*;
use crate::laws::Action;
use crate::laws::law_action_acts_as_immediate;

verus! {

/// The number of bytes that one asynchronous copy moves.
#[derive(Clone, Copy, Debug, PartialEq, Eq, Structural)]
pub enum CopyWidth {
    /// A 4-byte copy.
    Four,
    /// An 8-byte copy.
    Eight,
}

impl CopyWidth {
    /// The width in bytes.
    pub open spec fn size(self) -> int {
        match self {
            CopyWidth::Four => 4,
            CopyWidth::Eight => 8,
        }
    }

    /// The width in bytes, which is also the alignment of both addresses.
    pub fn bytes(self) -> (n: usize)
        ensures
            n == self.size(),
            self is Four ==> n == 4,
            self is Eight ==> n == 8,
    {
        match self {
            CopyWidth::Four => 4,
            CopyWidth::Eight => 8,
        }
    }
}

/// One asynchronous copy from global to shared memory.
#[derive(Clone, Copy, Debug)]
pub struct AsyncCopy {
    /// The thread that issued the copy.
    pub thread: usize,
    /// The position of the copy in the order of issue within the block.
    pub ticket: u64,
    /// Where in shared memory the destination starts.
    pub dst: usize,
    /// Where in global memory the source starts.
    pub src: usize,
    /// How many bytes are copied.
    pub width: CopyWidth,
    /// Whether the bytes have arrived in shared memory.
    pub landed: bool,
    /// Whether some thread has waited for the copy.
    pub completed: bool,
}

impl AsyncCopy {
    /// Whether the shared-memory address `a` belongs to the destination.
    pub open spec fn covers(self, a: int) -> bool {
        self.dst <= a < self.dst + self.width.size()
    }

    /// Whether the global-memory address `a` belongs to the source.
    pub open spec fn reads(self, a: int) -> bool {
        self.src <= a < self.src + self.width.size()
    }

    /// Whether the two destinations have no byte in common.
    pub open spec fn disjoint(self, other: AsyncCopy) -> bool {
        ||| self.dst + self.width.size() <= other.dst
        ||| other.dst + other.width.size() <= self.dst
    }

    /// The copy once its bytes have arrived and, if `completed` holds, once it has
    /// been waited for too.
    pub open spec fn advance(self, completed: bool) -> AsyncCopy {
        AsyncCopy { landed: true, completed: self.completed || completed, ..self }
    }
}

/// The mathematical state of a thread block.
#[verifier::ext_equal]
pub struct BlockView {
    /// The bytes of shared memory. The destination of a copy keeps its old bytes
    /// here until the copy lands.
    pub shared: Seq<u8>,
    /// The bytes of global memory.
    pub global: Seq<u8>,
    /// The copies that are not completed, and those that were completed since the
    /// threads last synchronized, in the order of issue.
    pub copies: Seq<AsyncCopy>,
    /// For each thread, one entry per committed group: the number of copies that
    /// the block had issued at the commit.
    pub groups: Seq<Seq<u64>>,
    /// How many copies the block has issued.
    pub issued: int,
    /// Who has waited for what since the threads last synchronized: a thread, and the
    /// ticket of a copy.
    pub waited: Set<(usize, u64)>,
}

impl BlockView {
    /// The number of threads in the block.
    pub open spec fn threads(self) -> int {
        self.groups.len() as int
    }

    /// Whether the destination of copy `j` holds the bytes of its source.
    pub open spec fn delivered(self, j: int) -> bool {
        forall|a: int|
            self.copies[j].covers(a) ==> #[trigger] self.shared[a] == self.source_byte(j, a)
    }

    /// Whether copy `j` lies inside both memories, is aligned, and carries a known
    /// thread and ticket. From the moment it lands until it is completed, its
    /// destination holds the bytes of its source. Nobody has waited for it until then.
    pub open spec fn copy_ok(self, j: int) -> bool {
        let c = self.copies[j];
        &&& c.dst + c.width.size() <= self.shared.len()
        &&& c.src + c.width.size() <= self.global.len()
        &&& c.dst as int % c.width.size() == 0
        &&& c.src as int % c.width.size() == 0
        &&& c.thread < self.threads()
        &&& c.ticket < self.issued
        &&& c.completed ==> c.landed
        &&& c.landed && !c.completed ==> self.delivered(j)
        &&& !c.completed ==> forall|t: usize| !#[trigger] self.waited.contains((t, c.ticket))
    }

    /// Whether the state is well formed: every copy is in order, tickets rise, only a
    /// completed copy is overlapped by a later one, and the marks of each thread's
    /// groups do not fall.
    pub open spec fn wf(self) -> bool {
        &&& 0 <= self.issued <= u64::MAX
        &&& self.shared.len() <= usize::MAX
        &&& self.global.len() <= usize::MAX
        &&& self.groups.len() <= usize::MAX
        &&& forall|j: int| 0 <= j < self.copies.len() ==> #[trigger] self.copy_ok(j)
        &&& forall|i: int, j: int|
            0 <= i < j < self.copies.len() ==> (#[trigger] self.copies[i]).ticket < (
            #[trigger] self.copies[j]).ticket
        &&& forall|i: int, j: int|
            0 <= i < j < self.copies.len() && !(#[trigger] self.copies[i]).disjoint(
                #[trigger] self.copies[j],
            ) ==> self.copies[i].completed
        &&& forall|p: (usize, u64)| #[trigger] self.waited.contains(p) ==> p.1 < self.issued
        &&& forall|t: int, k: int|
            0 <= t < self.groups.len() && 0 <= k < self.groups[t].len()
                ==> #[trigger] self.groups[t][k] <= self.issued
        &&& forall|t: int, k: int, l: int|
            0 <= t < self.groups.len() && 0 <= k <= l < self.groups[t].len()
                ==> #[trigger] self.groups[t][k] <= #[trigger] self.groups[t][l]
    }

    /// Whether `thread` has waited for copy `j`.
    pub open spec fn has_waited(self, thread: int, j: int) -> bool {
        self.waited.contains((thread as usize, self.copies[j].ticket))
    }

    /// Whether copy `j` is the last one issued whose destination holds the
    /// shared-memory address `a`.
    pub open spec fn governs(self, j: int, a: int) -> bool {
        &&& 0 <= j < self.copies.len()
        &&& self.copies[j].covers(a)
        &&& forall|k: int| j < k < self.copies.len() ==> !(#[trigger] self.copies[k]).covers(a)
    }

    /// Whether `thread` may read or write the shared-memory address `a`: if a copy
    /// that the threads have not synchronized on governs it, the thread has waited
    /// for that copy.
    pub open spec fn accessible(self, thread: int, a: int) -> bool {
        forall|j: int| #[trigger] self.governs(j, a) ==> self.has_waited(thread, j)
    }

    /// Whether the global-memory address `a` may be written: it belongs to the
    /// source of no copy that is not completed.
    pub open spec fn unread(self, a: int) -> bool {
        forall|j: int|
            0 <= j < self.copies.len() && !(#[trigger] self.copies[j]).completed
                ==> !self.copies[j].reads(a)
    }

    /// Whether copy `j` is selected by `sel`, has not landed yet, and will write
    /// the shared-memory address `a`.
    pub open spec fn lands_on(self, sel: spec_fn(int) -> bool, j: int, a: int) -> bool {
        &&& 0 <= j < self.copies.len()
        &&& sel(j)
        &&& !self.copies[j].landed
        &&& self.copies[j].covers(a)
    }

    /// The global-memory byte that copy `j` brings to the shared-memory address `a`.
    pub open spec fn source_byte(self, j: int, a: int) -> u8 {
        self.global[self.copies[j].src + (a - self.copies[j].dst)]
    }

    /// The shared-memory byte at `a` once the copies selected by `sel` have landed.
    pub open spec fn byte_after(self, sel: spec_fn(int) -> bool, a: int) -> u8 {
        if exists|j: int| #[trigger] self.lands_on(sel, j, a) {
            self.source_byte(choose|j: int| #[trigger] self.lands_on(sel, j, a), a)
        } else {
            self.shared[a]
        }
    }

    /// Whether `sel` selects the copy with the given ticket.
    pub open spec fn selects(self, sel: spec_fn(int) -> bool, ticket: u64) -> bool {
        exists|j: int|
            0 <= j < self.copies.len() && sel(j) && (#[trigger] self.copies[j]).ticket == ticket
    }

    /// The state once the copies selected by `sel` have landed and, if there is a
    /// `waiter`, once that thread has waited for them too.
    pub open spec fn advance(
        self,
        sel: spec_fn(int) -> bool,
        waiter: Option<usize>,
    ) -> BlockView {
        BlockView {
            shared: Seq::new(self.shared.len(), |a: int| self.byte_after(sel, a)),
            copies: Seq::new(
                self.copies.len(),
                |j: int|
                    if sel(j) {
                        self.copies[j].advance(waiter is Some)
                    } else {
                        self.copies[j]
                    },
            ),
            waited: Set::new(
                |p: (usize, u64)|
                    self.waited.contains(p) || (waiter == Some(p.0) && self.selects(sel, p.1)),
            ),
            ..self
        }
    }

    /// The state once the memory system has let copy `i` land.
    pub open spec fn land(self, i: int) -> BlockView {
        self.advance(only(i), None)
    }

    /// Selects the copies that `issuer` issued before the block had issued `mark`
    /// copies.
    pub open spec fn issued_before(self, issuer: int, mark: int) -> spec_fn(int) -> bool {
        |j: int| self.copies[j].thread == issuer && self.copies[j].ticket < mark
    }

    /// The state once `waiter` has waited for the copies that `issuer` issued before
    /// the block had issued `mark` copies.
    pub open spec fn complete_below(self, issuer: int, mark: int, waiter: int) -> BlockView {
        self.advance(self.issued_before(issuer, mark), Some(waiter as usize))
    }

    /// The bytes of shared memory once every copy has landed.
    pub open spec fn settled(self) -> Seq<u8> {
        Seq::new(self.shared.len(), |a: int| self.byte_after(|j: int| true, a))
    }

    /// Whether `thread` may issue a copy of `width` bytes from the global-memory
    /// address `src` to the shared-memory address `dst`: both ranges lie inside their
    /// memory, both addresses are aligned to the width, and the thread may access
    /// every byte of the destination.
    pub open spec fn may_issue(self, thread: int, dst: int, src: int, width: CopyWidth) -> bool {
        &&& 0 <= thread < self.threads()
        &&& 0 <= dst && dst + width.size() <= self.shared.len()
        &&& 0 <= src && src + width.size() <= self.global.len()
        &&& dst % width.size() == 0
        &&& src % width.size() == 0
        &&& forall|a: int|
            dst <= a < dst + width.size() ==> #[trigger] self.accessible(thread, a)
    }

    /// The state after `thread` has issued a copy. Nothing has landed yet.
    pub open spec fn issue(self, thread: int, dst: int, src: int, width: CopyWidth) -> BlockView {
        BlockView {
            copies: self.copies.push(
                AsyncCopy {
                    thread: thread as usize,
                    ticket: self.issued as u64,
                    dst: dst as usize,
                    src: src as usize,
                    width,
                    landed: false,
                    completed: false,
                },
            ),
            issued: self.issued + 1,
            ..self
        }
    }

    /// The state after `thread` has put its copies that are in no group yet into a new
    /// one.
    pub open spec fn commit_group(self, thread: int) -> BlockView {
        BlockView {
            groups: self.groups.update(thread, self.groups[thread].push(self.issued as u64)),
            ..self
        }
    }

    /// The state after all threads of the block have met at a barrier: the destinations
    /// of completed copies are open to all of them, and no other copy is affected.
    pub open spec fn sync(self) -> BlockView {
        BlockView {
            copies: self.copies.filter(|c: AsyncCopy| !c.completed),
            waited: Set::empty(),
            ..self
        }
    }

    /// The state after the shared-memory byte at `a` has been set to `x`.
    pub open spec fn store_shared(self, a: int, x: u8) -> BlockView {
        BlockView { shared: self.shared.update(a, x), ..self }
    }

    /// The state after the global-memory byte at `a` has been set to `x`.
    pub open spec fn store_global(self, a: int, x: u8) -> BlockView {
        BlockView { global: self.global.update(a, x), ..self }
    }
}

/// Selects copy `i` alone.
pub open spec fn only(i: int) -> spec_fn(int) -> bool {
    |j: int| j == i
}

/// The bytes `s` with those from `start` on replaced by `bytes`.
pub open spec fn splice(s: Seq<u8>, start: int, bytes: Seq<u8>) -> Seq<u8> {
    Seq::new(
        s.len(),
        |a: int|
            if start <= a < start + bytes.len() {
                bytes[a - start]
            } else {
                s[a]
            },
    )
}

/// A copy that is not completed is the last one on its destination.
pub(crate) proof fn lemma_uncompleted_governs(v: BlockView, j: int, a: int)
    requires
        v.wf(),
        0 <= j < v.copies.len(),
        !v.copies[j].completed,
        v.copies[j].covers(a),
    ensures
        v.governs(j, a),
        forall|thread: int| !#[trigger] v.accessible(thread, a),
{
    assert(v.copy_ok(j));
    assert forall|k: int| j < k < v.copies.len() implies !(#[trigger] v.copies[k]).covers(a) by {
        assert(v.copies[j].disjoint(v.copies[k]));
    }
    assert(v.governs(j, a));
    assert forall|thread: int| !#[trigger] v.accessible(thread, a) by {
        assert(!v.waited.contains((thread as usize, v.copies[j].ticket)));
    }
}

/// At most one copy that has not landed covers an address, so the byte that lands there
/// is the one that copy brings.
pub(crate) proof fn lemma_byte_after(v: BlockView, sel: spec_fn(int) -> bool, j: int, a: int)
    requires
        v.wf(),
        v.lands_on(sel, j, a),
    ensures
        v.byte_after(sel, a) == v.source_byte(j, a),
{
    let k = choose|k: int| #[trigger] v.lands_on(sel, k, a);
    assert(v.lands_on(sel, k, a));
    if k != j {
        assert(v.copy_ok(j) && v.copy_ok(k));
        lemma_uncompleted_governs(v, k, a);
        lemma_uncompleted_governs(v, j, a);
    }
}

/// Two states give the same byte at `a` after selections that land the same copies
/// there, if these bring the same bytes and, where none lands, the byte is the same.
pub(crate) proof fn lemma_byte_agrees(
    v: BlockView,
    sv: spec_fn(int) -> bool,
    w: BlockView,
    sw: spec_fn(int) -> bool,
    a: int,
)
    requires
        v.wf(),
        w.wf(),
        forall|j: int| #[trigger] v.lands_on(sv, j, a) == w.lands_on(sw, j, a),
        forall|j: int| #[trigger] v.lands_on(sv, j, a) ==> v.source_byte(j, a) == w.source_byte(j, a),
        (forall|j: int| !#[trigger] v.lands_on(sv, j, a)) ==> v.shared[a] == w.shared[a],
    ensures
        v.byte_after(sv, a) == w.byte_after(sw, a),
{
    if exists|j: int| #[trigger] v.lands_on(sv, j, a) {
        let j = choose|j: int| #[trigger] v.lands_on(sv, j, a);
        assert(w.lands_on(sw, j, a));
        lemma_byte_after(v, sv, j, a);
        lemma_byte_after(w, sw, j, a);
    } else {
        assert forall|j: int| !#[trigger] w.lands_on(sw, j, a) by {
            assert(!v.lands_on(sv, j, a));
        }
    }
}

/// Landing or completing copies keeps the state well formed.
pub(crate) proof fn lemma_advance_wf(v: BlockView, sel: spec_fn(int) -> bool, waiter: Option<usize>)
    requires
        v.wf(),
    ensures
        v.advance(sel, waiter).wf(),
{
    let w = v.advance(sel, waiter);
    assert forall|j: int| 0 <= j < w.copies.len() implies #[trigger] w.copy_ok(j) by {
        assert(v.copy_ok(j));
        let c = w.copies[j];
        if c.landed && !c.completed {
            assert forall|a: int| c.covers(a) implies #[trigger] w.shared[a] == w.source_byte(
                j,
                a,
            ) by {
                if v.lands_on(sel, j, a) {
                    lemma_byte_after(v, sel, j, a);
                } else {
                    assert(v.shared[a] == v.source_byte(j, a));
                    assert forall|k: int| !#[trigger] v.lands_on(sel, k, a) by {
                        if v.lands_on(sel, k, a) && k != j {
                            assert(v.copy_ok(k));
                            lemma_uncompleted_governs(v, k, a);
                            lemma_uncompleted_governs(v, j, a);
                        }
                    }
                }
            }
        }
        if !c.completed {
            assert forall|t: usize| !#[trigger] w.waited.contains((t, c.ticket)) by {
                if waiter == Some(t) && v.selects(sel, c.ticket) {
                    let k = choose|k: int|
                        0 <= k < v.copies.len() && sel(k) && (#[trigger] v.copies[k]).ticket
                            == c.ticket;
                    assert(k == j);
                }
            }
        }
    }
    assert forall|p: (usize, u64)| #[trigger] w.waited.contains(p) implies p.1 < w.issued by {
        if !v.waited.contains(p) {
            let k = choose|k: int|
                0 <= k < v.copies.len() && sel(k) && (#[trigger] v.copies[k]).ticket == p.1;
            assert(v.copy_ok(k));
        }
    }
}

/// What lands depends only on which of the block's copies are selected.
pub(crate) proof fn lemma_advance_same(
    v: BlockView,
    s1: spec_fn(int) -> bool,
    s2: spec_fn(int) -> bool,
    waiter: Option<usize>,
)
    requires
        v.wf(),
        forall|j: int|
            #![trigger v.copies[j]]
            0 <= j < v.copies.len() ==> s1(j) == s2(j),
    ensures
        v.advance(s1, waiter) == v.advance(s2, waiter),
{
    assert forall|a: int| v.byte_after(s1, a) == v.byte_after(s2, a) by {
        lemma_byte_agrees(v, s1, v, s2, a);
    }
    assert forall|ticket: u64| v.selects(s1, ticket) == v.selects(s2, ticket) by {
        if v.selects(s1, ticket) {
            let j = choose|j: int|
                0 <= j < v.copies.len() && s1(j) && (#[trigger] v.copies[j]).ticket == ticket;
            assert(s2(j));
        }
        if v.selects(s2, ticket) {
            let j = choose|j: int|
                0 <= j < v.copies.len() && s2(j) && (#[trigger] v.copies[j]).ticket == ticket;
            assert(s1(j));
        }
    }
    assert(v.advance(s1, waiter).waited =~= v.advance(s2, waiter).waited);
    assert(v.advance(s1, waiter) =~= v.advance(s2, waiter));
}

/// The byte that is found after one selection has landed and then another is the one
/// that is found when the two land together.
pub(crate) proof fn lemma_byte_compose(
    v: BlockView,
    s1: spec_fn(int) -> bool,
    waiter: Option<usize>,
    s2: spec_fn(int) -> bool,
    a: int,
)
    requires
        v.wf(),
        0 <= a < v.shared.len(),
    ensures
        v.advance(s1, waiter).byte_after(s2, a) == v.byte_after(|j: int| s1(j) || s2(j), a),
{
    let w = v.advance(s1, waiter);
    let s12 = |j: int| s1(j) || s2(j);
    lemma_advance_wf(v, s1, waiter);
    if exists|j: int| #[trigger] w.lands_on(s2, j, a) {
        let j = choose|j: int| #[trigger] w.lands_on(s2, j, a);
        assert(v.lands_on(s12, j, a));
        lemma_byte_after(w, s2, j, a);
        lemma_byte_after(v, s12, j, a);
    } else if exists|j: int| #[trigger] v.lands_on(s1, j, a) {
        let j = choose|j: int| #[trigger] v.lands_on(s1, j, a);
        assert(v.lands_on(s12, j, a));
        lemma_byte_after(v, s1, j, a);
        lemma_byte_after(v, s12, j, a);
    } else if exists|j: int| #[trigger] v.lands_on(s12, j, a) {
        let j = choose|j: int| #[trigger] v.lands_on(s12, j, a);
        assert(v.lands_on(s1, j, a) || w.lands_on(s2, j, a));
    }
}

/// Landing, or completing, one selection and then another does so for the two together.
pub(crate) proof fn lemma_advance_compose(
    v: BlockView,
    s1: spec_fn(int) -> bool,
    s2: spec_fn(int) -> bool,
    waiter: Option<usize>,
)
    requires
        v.wf(),
    ensures
        v.advance(s1, waiter).advance(s2, waiter) == v.advance(
            |j: int| s1(j) || s2(j),
            waiter,
        ),
{
    let w = v.advance(s1, waiter);
    let s12 = |j: int| s1(j) || s2(j);
    assert forall|a: int| 0 <= a < v.shared.len() implies w.byte_after(s2, a) == v.byte_after(
        s12,
        a,
    ) by {
        lemma_byte_compose(v, s1, waiter, s2, a);
    }
    assert forall|ticket: u64|
        v.selects(s12, ticket) == (v.selects(s1, ticket) || #[trigger] w.selects(s2, ticket)) by {
        if v.selects(s12, ticket) {
            let j = choose|j: int|
                0 <= j < v.copies.len() && s12(j) && (#[trigger] v.copies[j]).ticket == ticket;
            assert(w.copies[j].ticket == ticket);
        }
        if v.selects(s1, ticket) {
            let j = choose|j: int|
                0 <= j < v.copies.len() && s1(j) && (#[trigger] v.copies[j]).ticket == ticket;
            assert(s12(j));
        }
        if w.selects(s2, ticket) {
            let j = choose|j: int|
                0 <= j < w.copies.len() && s2(j) && (#[trigger] w.copies[j]).ticket == ticket;
            assert(s12(j) && v.copies[j].ticket == ticket);
        }
    }
    assert(w.advance(s2, waiter).waited =~= v.advance(s12, waiter).waited);
    assert(w.advance(s2, waiter) =~= v.advance(s12, waiter));
}

/// A byte that a thread may access is the same whatever lands.
pub(crate) proof fn lemma_untouched(v: BlockView, sel: spec_fn(int) -> bool, thread: int, a: int)
    requires
        v.wf(),
        v.accessible(thread, a),
    ensures
        v.byte_after(sel, a) == v.shared[a],
{
    assert forall|j: int| !#[trigger] v.lands_on(sel, j, a) by {
        if v.lands_on(sel, j, a) {
            assert(v.copy_ok(j));
            lemma_uncompleted_governs(v, j, a);
        }
    }
}

/// A copy whose destination and source are not modified stays delivered.
proof fn lemma_delivered_kept(v: BlockView, w: BlockView, i: int, j: int)
    requires
        v.copies[i] == w.copies[j],
        forall|a: int| v.copies[i].covers(a) ==> v.shared[a] == w.shared[a],
        forall|a: int| v.copies[i].reads(a) ==> v.global[a] == w.global[a],
    ensures
        v.delivered(i) ==> w.delivered(j),
{
    if v.delivered(i) {
        assert forall|a: int| w.copies[j].covers(a) implies #[trigger] w.shared[a]
            == w.source_byte(j, a) by {
            let c = v.copies[i];
            assert(c.reads(c.src + (a - c.dst)));
            assert(v.shared[a] == v.source_byte(i, a));
        }
    }
}

/// Storing to a byte of shared memory that a thread may access keeps the state well
/// formed.
pub(crate) proof fn lemma_store_shared_wf(v: BlockView, thread: int, addr: int, x: u8)
    requires
        v.wf(),
        0 <= addr < v.shared.len(),
        v.accessible(thread, addr),
    ensures
        v.store_shared(addr, x).wf(),
{
    let w = v.store_shared(addr, x);
    assert forall|j: int| 0 <= j < w.copies.len() implies #[trigger] w.copy_ok(j) by {
        assert(v.copy_ok(j));
        if !v.copies[j].completed {
            if v.copies[j].covers(addr) {
                lemma_uncompleted_governs(v, j, addr);
            }
            lemma_delivered_kept(v, w, j, j);
        }
    }
}

/// Storing to a byte of global memory that no uncompleted copy reads keeps the state
/// well formed.
pub(crate) proof fn lemma_store_global_wf(v: BlockView, addr: int, x: u8)
    requires
        v.wf(),
        0 <= addr < v.global.len(),
        v.unread(addr),
    ensures
        v.store_global(addr, x).wf(),
{
    let w = v.store_global(addr, x);
    assert forall|j: int| 0 <= j < w.copies.len() implies #[trigger] w.copy_ok(j) by {
        assert(v.copy_ok(j));
        if !v.copies[j].completed {
            lemma_delivered_kept(v, w, j, j);
        }
    }
}

/// Committing a group keeps the state well formed.
pub(crate) proof fn lemma_commit_wf(v: BlockView, thread: int)
    requires
        v.wf(),
        0 <= thread < v.threads(),
    ensures
        v.commit_group(thread).wf(),
{
    let w = v.commit_group(thread);
    assert forall|j: int| 0 <= j < w.copies.len() implies #[trigger] w.copy_ok(j) by {
        assert(v.copy_ok(j));
        lemma_delivered_kept(v, w, j, j);
    }
}

/// Issuing a permitted copy keeps the state well formed.
pub(crate) proof fn lemma_issue_wf(v: BlockView, thread: int, dst: int, src: int, width: CopyWidth)
    requires
        v.wf(),
        v.may_issue(thread, dst, src, width),
        v.issued < u64::MAX,
    ensures
        v.issue(thread, dst, src, width).wf(),
{
    let w = v.issue(thread, dst, src, width);
    let n = v.copies.len() as int;
    let c = w.copies[n];
    assert forall|j: int| 0 <= j < w.copies.len() implies #[trigger] w.copy_ok(j) by {
        if j < n {
            assert(v.copy_ok(j));
            lemma_delivered_kept(v, w, j, j);
        }
    }
    assert forall|j: int| 0 <= j < n && !v.copies[j].completed implies (
    #[trigger] v.copies[j]).disjoint(c) by {
        let o = v.copies[j];
        let a: int = if o.dst < dst {
            dst
        } else {
            o.dst as int
        };
        if !o.disjoint(c) {
            assert(v.accessible(thread, a));
            lemma_uncompleted_governs(v, j, a);
        }
    }
    assert forall|i: int, j: int| 0 <= i < j < w.copies.len() implies (
    #[trigger] w.copies[i]).ticket < (#[trigger] w.copies[j]).ticket by {
        assert(v.copy_ok(i));
    }
}

/// Gives, for each copy that a filter keeps, its position in the unfiltered sequence.
pub(crate) proof fn lemma_filter_positions(
    s: Seq<AsyncCopy>,
    keep: spec_fn(AsyncCopy) -> bool,
) -> (pos: Seq<int>)
    ensures
        pos.len() == s.filter(keep).len(),
        forall|k: int|
            0 <= k < pos.len() ==> 0 <= #[trigger] pos[k] < s.len() && s.filter(keep)[k]
                == s[pos[k]] && keep(s[pos[k]]),
        forall|k: int, l: int| 0 <= k < l < pos.len() ==> #[trigger] pos[k] < #[trigger] pos[l],
    decreases s.len(),
{
    reveal(Seq::filter);
    if s.len() == 0 {
        Seq::empty()
    } else {
        let rest = lemma_filter_positions(s.drop_last(), keep);
        if keep(s.last()) {
            rest.push(s.len() - 1)
        } else {
            rest
        }
    }
}

/// A barrier keeps the state well formed.
pub(crate) proof fn lemma_sync_wf(v: BlockView)
    requires
        v.wf(),
    ensures
        v.sync().wf(),
{
    let w = v.sync();
    let pos = lemma_filter_positions(v.copies, |c: AsyncCopy| !c.completed);
    assert forall|j: int| 0 <= j < w.copies.len() implies #[trigger] w.copy_ok(j) by {
        assert(v.copy_ok(pos[j]));
        lemma_delivered_kept(v, w, pos[j], j);
    }
    assert forall|i: int, j: int| 0 <= i < j < w.copies.len() implies (
    #[trigger] w.copies[i]).ticket < (#[trigger] w.copies[j]).ticket by {
        assert(pos[i] < pos[j]);
    }
    assert forall|i: int, j: int| 0 <= i < j < w.copies.len() implies (
    #[trigger] w.copies[i]).disjoint(#[trigger] w.copies[j]) by {
        assert(pos[i] < pos[j]);
    }
}

/// A block of threads with its shared memory, the global memory that it reads, and
/// its asynchronous copies.
#[derive(Debug)]
pub struct ThreadBlock {
    shared: Vec<u8>,
    global: Vec<u8>,
    copies: Vec<AsyncCopy>,
    groups: Vec<Vec<u64>>,
    issued: u64,
    waits: Vec<(usize, u64)>,
}

impl View for ThreadBlock {
    type V = BlockView;

    closed spec fn view(&self) -> BlockView {
        BlockView {
            shared: self.shared@,
            global: self.global@,
            copies: self.copies@,
            groups: Seq::new(self.groups@.len(), |t: int| self.groups@[t]@),
            issued: self.issued as int,
            waited: self.waits@.to_set(),
        }
    }
}

impl ThreadBlock {
    /// A block of `threads` threads over the given memories, with no copies.
    pub fn new(shared: Vec<u8>, global: Vec<u8>, threads: usize) -> (block: ThreadBlock)
        ensures
            block@.wf(),
            block@.shared == shared@,
            block@.global == global@,
            block@.copies == Seq::<AsyncCopy>::empty(),
            block@.groups == Seq::new(threads as nat, |t: int| Seq::<u64>::empty()),
            block@.issued == 0,
            block@.waited == Set::<(usize, u64)>::empty(),
    {
        let mut groups: Vec<Vec<u64>> = Vec::new();
        let mut t: usize = 0;
        while t < threads
            invariant
                t <= threads,
                groups@.len() == t,
                forall|u: int| 0 <= u < t ==> (#[trigger] groups@[u])@ == Seq::<u64>::empty(),
            decreases threads - t,
        {
            groups.push(Vec::new());
            t += 1;
        }
        assert(shared@.len() == shared.len() && global@.len() == global.len());
        let waits: Vec<(usize, u64)> = Vec::new();
        assert(waits@.to_set() =~= Set::<(usize, u64)>::empty());
        ThreadBlock { shared, global, copies: Vec::new(), groups, issued: 0, waits }
    }

    /// Lets copy `i` land. This is an event of the memory system, not of a thread: it
    /// may happen to any copy at any time, it opens the destination to no thread, and it
    /// leaves a copy that has landed alone.
    pub fn land(&mut self, i: usize)
        requires
            old(self)@.wf(),
            i < old(self)@.copies.len(),
        ensures
            final(self)@.wf(),
            final(self)@ == old(self)@.land(i as int),
            final(self)@.settled() == old(self)@.settled(),
            final(self)@ == (BlockView {
                shared: final(self)@.shared,
                copies: old(self)@.copies.update(
                    i as int,
                    AsyncCopy { landed: true, ..old(self)@.copies[i as int] },
                ),
                ..old(self)@
            }),
            final(self)@.shared.len() == old(self)@.shared.len(),
            forall|a: int|
                0 <= a < old(self)@.shared.len() ==> #[trigger] final(self)@.shared[a] == ({
                    let c = old(self)@.copies[i as int];
                    if !c.landed && c.dst <= a < c.dst + c.width.size() {
                        old(self)@.global[c.src + (a - c.dst)]
                    } else {
                        old(self)@.shared[a]
                    }
                }),
    {
        let ghost v = self@;
        proof {
            law_action_acts_as_immediate(self@, Action::Land { i: i as int });
        }
        self.advance(i, None);
        proof {
            let sel = only(i as int);
            let c = v.copies[i as int];
            assert forall|a: int| 0 <= a < v.shared.len() implies #[trigger] self@.shared[a] == (
            if !c.landed && c.covers(a) {
                v.global[c.src + (a - c.dst)]
            } else {
                v.shared[a]
            }) by {
                if !c.landed && c.covers(a) {
                    assert(v.lands_on(sel, i as int, a));
                    lemma_byte_after(v, sel, i as int, a);
                } else {
                    assert forall|j: int| !#[trigger] v.lands_on(sel, j, a) by {}
                }
            }
            assert(self@.waited =~= v.waited);
            assert(self@.copies =~= v.copies.update(i as int, AsyncCopy { landed: true, ..c }));
        }
    }

    /// Lets copy `i` land and, if there is a `waiter`, records that this thread has waited
    /// for it.
    fn advance(&mut self, i: usize, waiter: Option<usize>)
        requires
            old(self)@.wf(),
            i < old(self)@.copies.len(),
        ensures
            final(self)@.wf(),
            final(self)@ == old(self)@.advance(only(i as int), waiter),
    {
        let c = self.copies[i];
        let ghost v = self@;
        let ghost sel = only(i as int);
        assert(v.copy_ok(i as int));
        proof {
            lemma_advance_wf(v, sel, waiter);
        }
        if !c.landed {
            let n: usize = c.width.bytes();
            let mut k: usize = 0;
            while k < n
                invariant
                    k <= n,
                    n == c.width.size(),
                    v.wf(),
                    v.copy_ok(i as int),
                    v.copies[i as int] == c,
                    self.global@ == v.global,
                    self.copies@ == v.copies,
                    self.groups == old(self).groups,
                    self.issued == old(self).issued,
                    self.waits == old(self).waits,
                    self.shared@.len() == v.shared.len(),
                    forall|a: int|
                        0 <= a < v.shared.len() ==> #[trigger] self.shared@[a] == (if c.dst <= a
                            < c.dst + k {
                            v.global[c.src + (a - c.dst)]
                        } else {
                            v.shared[a]
                        }),
                decreases n - k,
            {
                let b = self.global[c.src + k];
                self.shared.set(c.dst + k, b);
                k += 1;
            }
        }
        self.copies.set(
            i,
            AsyncCopy { landed: true, completed: c.completed || waiter.is_some(), ..c },
        );
        if let Some(thread) = waiter {
            self.waits.push((thread, c.ticket));
        }
        proof {
            let w = v.advance(sel, waiter);
            assert(self@.waited =~= w.waited) by {
                assert forall|p: (usize, u64)| self@.waited.contains(p) == w.waited.contains(p) by {
                    assert(v.selects(sel, c.ticket)) by {
                        assert(v.copies[i as int].ticket == c.ticket);
                    }
                    if v.waited.contains(p) {
                        let k = choose|k: int|
                            0 <= k < old(self).waits@.len() && old(self).waits@[k] == p;
                        assert(self.waits@[k] == p);
                    }
                    if waiter == Some(p.0) && v.selects(sel, p.1) {
                        assert(self.waits@.last() == p);
                    }
                }
            }
            assert forall|a: int| 0 <= a < v.shared.len() implies self.shared@[a] == w.shared[a] by {
                if !c.landed && c.covers(a) {
                    assert(v.lands_on(sel, i as int, a));
                    lemma_byte_after(v, sel, i as int, a);
                } else {
                    assert forall|j: int| !#[trigger] v.lands_on(sel, j, a) by {}
                }
            }
            assert(self@ =~= w);
        }
    }

    /// Makes `waiter` wait for every copy that `issuer` issued before the block had issued
    /// `mark` copies.
    pub(crate) fn complete_below(&mut self, issuer: usize, mark: u64, waiter: usize)
        requires
            old(self)@.wf(),
        ensures
            final(self)@.wf(),
            final(self)@ == old(self)@.complete_below(issuer as int, mark as int, waiter as int),
    {
        let ghost v = self@;
        let ghost all = v.issued_before(issuer as int, mark as int);
        let mut i: usize = 0;
        let n: usize = self.copies.len();
        proof {
            let none = |j: int| j < 0 && all(j);
            assert forall|a: int, j: int| !#[trigger] v.lands_on(none, j, a) by {}
            assert(v.advance(none, Some(waiter)).waited =~= v.waited);
            assert(v =~= v.advance(none, Some(waiter)));
        }
        while i < n
            invariant
                i <= n,
                n == v.copies.len(),
                v.wf(),
                self@.wf(),
                all == v.issued_before(issuer as int, mark as int),
                self@ == v.advance(|j: int| j < i && all(j), Some(waiter)),
            decreases n - i,
        {
            let c = self.copies[i];
            let ghost done = |j: int| j < i && all(j);
            let ghost next = |j: int| j < i + 1 && all(j);
            if c.thread == issuer && c.ticket < mark {
                self.advance(i, Some(waiter));
                proof {
                    let one = only(i as int);
                    lemma_advance_compose(v, done, one, Some(waiter));
                    lemma_advance_same(v, |j: int| done(j) || one(j), next, Some(waiter));
                }
            } else {
                proof {
                    lemma_advance_same(v, done, next, Some(waiter));
                }
            }
            i += 1;
            assert(self@ == v.advance(next, Some(waiter)));
        }
        proof {
            lemma_advance_same(v, |j: int| j < n && all(j), all, Some(waiter));
        }
    }

    /// Records a copy as issued.
    pub(crate) fn issue(&mut self, thread: usize, dst: usize, src: usize, width: CopyWidth)
        requires
            old(self)@.wf(),
            old(self)@.may_issue(thread as int, dst as int, src as int, width),
            old(self)@.issued < u64::MAX,
        ensures
            final(self)@.wf(),
            final(self)@ == old(self)@.issue(thread as int, dst as int, src as int, width),
    {
        let ghost v = self@;
        proof {
            lemma_issue_wf(v, thread as int, dst as int, src as int, width);
        }
        let ticket: u64 = self.issued;
        self.copies.push(
            AsyncCopy { thread, ticket, dst, src, width, landed: false, completed: false },
        );
        self.issued = ticket + 1;
        assert(self@ =~= v.issue(thread as int, dst as int, src as int, width));
    }

    /// Closes the current group of `thread`.
    pub(crate) fn commit(&mut self, thread: usize)
        requires
            old(self)@.wf(),
            thread < old(self)@.threads(),
        ensures
            final(self)@.wf(),
            final(self)@ == old(self)@.commit_group(thread as int),
    {
        let ghost v = self@;
        let mark: u64 = self.issued;
        self.groups[thread].push(mark);
        proof {
            let w = v.commit_group(thread as int);
            lemma_commit_wf(v, thread as int);
            assert(self@.groups =~= w.groups);
            assert(self@ =~= w);
        }
    }

    /// The number of groups that `thread` has committed.
    pub(crate) fn group_count(&self, thread: usize) -> (n: usize)
        requires
            thread < self@.threads(),
        ensures
            n == self@.groups[thread as int].len(),
    {
        self.groups[thread].len()
    }

    /// The number of copies that the block had issued when `thread` committed its group
    /// number `k`.
    pub(crate) fn group_mark(&self, thread: usize, k: usize) -> (mark: u64)
        requires
            thread < self@.threads(),
            k < self@.groups[thread as int].len(),
        ensures
            mark == self@.groups[thread as int][k as int],
    {
        self.groups[thread][k]
    }

    /// The number of copies that the block has issued.
    pub fn issued(&self) -> (n: u64)
        ensures
            n == self@.issued,
    {
        self.issued
    }

    /// The number of threads in the block.
    pub fn threads(&self) -> (n: usize)
        ensures
            n == self@.threads(),
            n == self@.groups.len(),
    {
        self.groups.len()
    }

    /// Reads one byte of shared memory.
    pub fn load_shared(&self, thread: usize, addr: usize) -> (x: u8)
        requires
            self@.wf(),
            thread < self@.threads(),
            addr < self@.shared.len(),
            self@.accessible(thread as int, addr as int),
        ensures
            x == self@.shared[addr as int],
            x == self@.settled()[addr as int],
    {
        proof {
            lemma_untouched(self@, |j: int| true, thread as int, addr as int);
        }
        self.shared[addr]
    }

    /// Writes one byte of shared memory.
    pub fn store_shared(&mut self, thread: usize, addr: usize, x: u8)
        requires
            old(self)@.wf(),
            thread < old(self)@.threads(),
            addr < old(self)@.shared.len(),
            old(self)@.accessible(thread as int, addr as int),
        ensures
            final(self)@.wf(),
            final(self)@ == old(self)@.store_shared(addr as int, x),
            final(self)@.settled() == old(self)@.settled().update(addr as int, x),
            final(self)@ == (BlockView {
                shared: old(self)@.shared.update(addr as int, x),
                ..old(self)@
            }),
    {
        let ghost v = self@;
        proof {
            law_action_acts_as_immediate(
                v,
                Action::StoreShared { thread: thread as int, addr: addr as int, x },
            );
        }
        self.shared.set(addr, x);
        proof {
            lemma_store_shared_wf(v, thread as int, addr as int, x);
            assert(self@ =~= v.store_shared(addr as int, x));
        }
    }

    /// Reads one byte of global memory.
    pub fn load_global(&self, addr: usize) -> (x: u8)
        requires
            addr < self@.global.len(),
        ensures
            x == self@.global[addr as int],
    {
        self.global[addr]
    }

    /// Writes one byte of global memory that belongs to no source of a copy still to be
    /// completed.
    pub fn store_global(&mut self, addr: usize, x: u8)
        requires
            old(self)@.wf(),
            addr < old(self)@.global.len(),
            old(self)@.unread(addr as int),
        ensures
            final(self)@.wf(),
            final(self)@ == old(self)@.store_global(addr as int, x),
            final(self)@ == (BlockView {
                global: old(self)@.global.update(addr as int, x),
                ..old(self)@
            }),
            final(self)@.settled() == old(self)@.settled(),
    {
        let ghost v = self@;
        proof {
            law_action_acts_as_immediate(v, Action::StoreGlobal { addr: addr as int, x });
        }
        self.global.set(addr, x);
        proof {
            lemma_store_global_wf(v, addr as int, x);
            assert(self@ =~= v.store_global(addr as int, x));
        }
    }

    /// Synchronizes the threads of the block. The destinations of completed copies become
    /// open to all of them. No copy is waited for.
    pub fn sync_threads(&mut self)
        requires
            old(self)@.wf(),
        ensures
            final(self)@.wf(),
            final(self)@ == old(self)@.sync(),
            final(self)@ == (BlockView {
                copies: old(self)@.copies.filter(|c: AsyncCopy| !c.completed),
                waited: Set::empty(),
                ..old(self)@
            }),
            final(self)@.settled() == old(self)@.settled(),
    {
        let ghost v = self@;
        proof {
            law_action_acts_as_immediate(v, Action::Sync);
        }
        let ghost keep = |c: AsyncCopy| !c.completed;
        let mut kept: Vec<AsyncCopy> = Vec::new();
        let mut i: usize = 0;
        assert(v.copies.take(0).filter(keep) =~= Seq::<AsyncCopy>::empty()) by {
            reveal(Seq::filter);
        }
        while i < self.copies.len()
            invariant
                i <= self.copies.len(),
                self@ == v,
                keep == (|c: AsyncCopy| !c.completed),
                kept@ == v.copies.take(i as int).filter(keep),
            decreases self.copies.len() - i,
        {
            let c = self.copies[i];
            proof {
                let p = v.copies.take(i + 1);
                assert(p.drop_last() =~= v.copies.take(i as int));
                assert(p.last() == c);
                reveal(Seq::filter);
            }
            if !c.completed {
                kept.push(c);
            }
            i += 1;
        }
        assert(v.copies.take(i as int) =~= v.copies);
        self.copies = kept;
        self.waits = Vec::new();
        proof {
            assert(self.waits@.to_set() =~= Set::<(usize, u64)>::empty());
            assert(self@ =~= v.sync());
            lemma_sync_wf(v);
        }
    }
}

} // verus!
