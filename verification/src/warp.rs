//! Lane-position masks and warp prefix sums.
//!
//! A warp is 32 lanes, and a mask holds one bit per lane. The number of kept lanes
//! before a lane, its slot in the compacted output, takes one ballot and one
//! population count:
//!
//! ```text
//!   ballot = bit k is lane k's predicate
//!   rank   = population count of (ballot & lanemask_lt)
//! ```

use vstd::prelude::*;

verus! {

/// The number of lanes in a warp.
pub const LANES: usize = 32;

/// Whether a mask holds lane `k`.
pub open spec fn has_lane(mask: u32, k: u32) -> bool {
    (mask >> k) & 1 == 1
}

/// The number of lanes below `n` that a mask holds.
pub open spec fn lanes_below(mask: u32, n: nat) -> nat
    decreases n,
{
    if n == 0 {
        0
    } else {
        lanes_below(mask, (n - 1) as nat) + if has_lane(mask, (n - 1) as u32) {
            1nat
        } else {
            0nat
        }
    }
}

/// The number of nonzero items of `data` from position `lo` up to `hi`.
pub open spec fn kept(data: Seq<u32>, lo: int, hi: int) -> nat
    decreases hi - lo,
{
    if hi <= lo {
        0
    } else {
        kept(data, lo, hi - 1) + if data[hi - 1] != 0 {
            1nat
        } else {
            0nat
        }
    }
}

/// The first position of the warp that position `i` belongs to.
pub open spec fn warp_start(i: int) -> int {
    i - i % 32
}

/// The `%lanemask_lt` register of a lane: the set of lanes strictly before it.
pub fn lanemask_lt(lane: u32) -> (mask: u32)
    requires
        lane < 32,
    ensures
        mask == (1u32 << lane) - 1,
        forall|k: u32| k < 32 ==> (#[trigger] has_lane(mask, k) <==> k < lane),
{
    assert(1u32 << lane >= 1) by (bit_vector)
        requires
            lane < 32,
    ;
    let mask: u32 = (1u32 << lane) - 1;
    assert forall|k: u32| k < 32 implies (#[trigger] has_lane(mask, k) <==> k < lane) by {
        assert(((mask >> k) & 1 == 1) <==> k < lane) by (bit_vector)
            requires
                lane < 32,
                k < 32,
                mask == (1u32 << lane) - 1,
        ;
    }
    mask
}

/// The set of lanes whose predicate holds.
pub fn ballot(keep: &[bool]) -> (mask: u32)
    requires
        keep@.len() == 32,
    ensures
        forall|k: u32| k < 32 ==> #[trigger] has_lane(mask, k) == keep@[k as int],
        forall|k: u32| k < 32 ==> ((#[trigger] (mask >> k)) & 1 == 1) == keep@[k as int],
{
    let mut mask: u32 = 0;
    let mut i: u32 = 0;
    assert forall|k: u32| k < 32 implies !#[trigger] has_lane(0, k) by {
        assert(!((0u32 >> k) & 1 == 1)) by (bit_vector);
    }
    while i < 32
        invariant
            i <= 32,
            keep@.len() == 32,
            forall|k: u32| k < i ==> #[trigger] has_lane(mask, k) == keep@[k as int],
            forall|k: u32| i <= k < 32 ==> !#[trigger] has_lane(mask, k),
        decreases 32 - i,
    {
        if keep[i as usize] {
            let next: u32 = mask | (1u32 << i);
            assert forall|k: u32| k < 32 implies #[trigger] has_lane(next, k) == (has_lane(mask, k)
                || k == i) by {
                assert(((next >> k) & 1 == 1) == ((mask >> k) & 1 == 1 || k == i)) by (bit_vector)
                    requires
                        i < 32,
                        k < 32,
                        next == mask | (1u32 << i),
                ;
            }
            mask = next;
        }
        i += 1;
    }
    assert forall|k: u32| k < 32 implies ((#[trigger] (mask >> k)) & 1 == 1) == keep@[k as int] by {
        assert(has_lane(mask, k) == keep@[k as int]);
    }
    mask
}

/// The number of lanes below `n` that a mask holds is the number of ones among its `n`
/// lowest bits. It is at most `n`, and one more bit adds that bit to it.
pub proof fn law_lanes_below_counts_bits(mask: u32, n: nat)
    requires
        n <= 32,
    ensures
        lanes_below(mask, n) == Seq::new(n, |k: int| (mask >> (k as u32)) & 1 == 1).filter(
            |b: bool| b,
        ).len(),
        lanes_below(mask, n) <= n,
        n < 32 ==> lanes_below(mask, n + 1) == lanes_below(mask, n) + ((mask >> (n as u32)) & 1),
    decreases n,
{
    let bits = Seq::new(n, |k: int| (mask >> (k as u32)) & 1 == 1);
    reveal(Seq::filter);
    if n > 0 {
        law_lanes_below_counts_bits(mask, (n - 1) as nat);
        assert(bits.drop_last() =~= Seq::new(
            (n - 1) as nat,
            |k: int| (mask >> (k as u32)) & 1 == 1,
        ));
    }
    if n < 32 {
        let m = n as u32;
        assert((mask >> m) & 1 == 0 || (mask >> m) & 1 == 1) by (bit_vector);
    }
}

/// The number of lanes that a mask holds.
pub fn popcount(mask: u32) -> (n: u32)
    ensures
        n == lanes_below(mask, 32),
        n == Seq::new(32, |k: int| (mask >> (k as u32)) & 1 == 1).filter(|b: bool| b).len(),
{
    let mut n: u32 = 0;
    let mut k: u32 = 0;
    while k < 32
        invariant
            k <= 32,
            n <= k,
            n == lanes_below(mask, k as nat),
        decreases 32 - k,
    {
        if (mask >> k) & 1 == 1 {
            n += 1;
        }
        k += 1;
    }
    proof {
        law_lanes_below_counts_bits(mask, 32);
    }
    n
}

/// Masking with the lanes before `lane` leaves the count of lanes below it.
proof fn lemma_masked_count(ballot: u32, lt: u32, lane: u32, n: nat)
    requires
        lane < 32,
        n <= 32,
        forall|k: u32| k < 32 ==> (#[trigger] has_lane(lt, k) <==> k < lane),
    ensures
        lanes_below(ballot & lt, n) == lanes_below(
            ballot,
            if n < lane {
                n
            } else {
                lane as nat
            },
        ),
    decreases n,
{
    if n > 0 {
        let k = (n - 1) as u32;
        lemma_masked_count(ballot, lt, lane, (n - 1) as nat);
        assert(has_lane(lt, k) <==> k < lane);
        assert((((ballot & lt) >> k) & 1 == 1) == ((ballot >> k) & 1 == 1 && (lt >> k) & 1 == 1))
            by (bit_vector);
    }
}

/// The compaction slot of a lane: the number of lanes before it that the ballot holds.
pub fn compact_rank(ballot: u32, lane: u32) -> (rank: u32)
    requires
        lane < 32,
    ensures
        rank == lanes_below(ballot, lane as nat),
        rank == Seq::new(lane as nat, |k: int| (ballot >> (k as u32)) & 1 == 1).filter(
            |b: bool| b,
        ).len(),
        rank <= lane,
{
    let lt: u32 = lanemask_lt(lane);
    proof {
        lemma_masked_count(ballot, lt, lane, 32);
        law_lanes_below_counts_bits(ballot, lane as nat);
    }
    popcount(ballot & lt)
}

/// The `%lanemask_lt` register of each of `n` threads, whose warps are consecutive.
pub fn lanemask_lt_values(n: usize) -> (out: Vec<u32>)
    ensures
        out@.len() == n,
        forall|i: int| 0 <= i < n ==> #[trigger] out@[i] == (1u32 << (i % 32) as u32) - 1,
{
    let mut out: Vec<u32> = Vec::new();
    let mut i: usize = 0;
    while i < n
        invariant
            i <= n,
            out@.len() == i,
            forall|j: int| 0 <= j < i ==> #[trigger] out@[j] == (1u32 << (j % 32) as u32) - 1,
        decreases n - i,
    {
        out.push(lanemask_lt((i % LANES) as u32));
        i += 1;
    }
    out
}

/// Whether `out[i]` is `(1 << lane) - 1` for the lane of every thread `i`.
pub fn lanemask_lt_values_ok(out: &[u32]) -> (ok: bool)
    ensures
        ok == (forall|i: int|
            0 <= i < out@.len() ==> #[trigger] out@[i] == (1u32 << (i % 32) as u32) - 1),
{
    let mut i: usize = 0;
    while i < out.len()
        invariant
            i <= out@.len(),
            forall|j: int| 0 <= j < i ==> #[trigger] out@[j] == (1u32 << (j % 32) as u32) - 1,
        decreases out@.len() - i,
    {
        if out[i] != lanemask_lt((i % LANES) as u32) {
            assert(out@[i as int] != (1u32 << (i % 32) as u32) - 1);
            return false;
        }
        i += 1;
    }
    true
}

/// The ballot of the warp that starts at `start` counts the nonzero items.
proof fn lemma_ballot_counts(mask: u32, data: Seq<u32>, start: int, lane: nat)
    requires
        0 <= start,
        lane <= 32,
        start + lane <= data.len(),
        forall|k: u32|
            k < lane ==> #[trigger] has_lane(mask, k) == (data[start + k] != 0),
    ensures
        lanes_below(mask, lane) == kept(data, start, start + lane),
    decreases lane,
{
    if lane > 0 {
        lemma_ballot_counts(mask, data, start, (lane - 1) as nat);
        assert(has_lane(mask, (lane - 1) as u32) == (data[start + (lane - 1) as u32] != 0));
    }
}

/// The kept items of a range are its nonzero items.
pub proof fn law_kept_counts_nonzero_items(data: Seq<u32>, lo: int, hi: int)
    requires
        0 <= lo <= hi <= data.len(),
    ensures
        kept(data, lo, hi) == data.subrange(lo, hi).filter(|x: u32| x != 0).len(),
    decreases hi - lo,
{
    reveal(Seq::filter);
    if lo < hi {
        law_kept_counts_nonzero_items(data, lo, hi - 1);
        assert(data.subrange(lo, hi).drop_last() =~= data.subrange(lo, hi - 1));
    }
}

/// A warp is the 32 positions from a multiple of 32 on.
pub proof fn law_warps_are_aligned(i: int)
    ensures
        warp_start(i) % 32 == 0,
        warp_start(i) <= i < warp_start(i) + 32,
        forall|j: int| warp_start(j) == warp_start(i) <==> #[trigger] (j / 32) == i / 32,
{
}

/// The rank of position `i` is the number of nonzero items before it in its warp of 32.
/// It starts at zero in each warp, goes up by one after each nonzero item, and is at most
/// the lane.
pub proof fn law_rank_counts_its_warp(data: Seq<u32>, i: int)
    requires
        0 <= i < data.len(),
    ensures
        kept(data, warp_start(i), i) == data.subrange(i - i % 32, i).filter(
            |x: u32| x != 0,
        ).len(),
        kept(data, warp_start(i), i) <= i % 32,
        i % 32 == 0 ==> kept(data, warp_start(i), i) == 0,
        i % 32 != 0 ==> kept(data, warp_start(i), i) == kept(data, warp_start(i - 1), i - 1) + (
        if data[i - 1] != 0 {
            1nat
        } else {
            0nat
        }),
{
    law_warps_are_aligned(i);
    law_kept_counts_nonzero_items(data, warp_start(i), i);
    data.subrange(i - i % 32, i).lemma_filter_len(|x: u32| x != 0);
    if i % 32 != 0 {
        assert(warp_start(i - 1) == warp_start(i));
    }
}

/// Warp exclusive prefix sum: for each of `n` threads, the number of threads before it
/// in its warp that keep their item. A thread keeps its item when it is nonzero.
pub fn warp_compact_rank(data: &[u32], n: usize) -> (ranks: Vec<u32>)
    requires
        n <= data@.len(),
    ensures
        ranks@.len() == n,
        forall|i: int| 0 <= i < n ==> #[trigger] ranks@[i] == kept(data@, warp_start(i), i),
        forall|i: int|
            0 <= i < n ==> #[trigger] ranks@[i] == data@.subrange(i - i % 32, i).filter(
                |x: u32| x != 0,
            ).len(),
        forall|i: int| 0 <= i < n && i % 32 == 0 ==> #[trigger] ranks@[i] == 0,
        forall|i: int|
            0 < i < n && i % 32 != 0 ==> #[trigger] ranks@[i] == ranks@[i - 1] + (
            if data@[i - 1] != 0 {
                1int
            } else {
                0int
            }),
{
    let mut ranks: Vec<u32> = Vec::new();
    let mut start: usize = 0;
    while start < n
        invariant
            start <= n <= data@.len(),
            start % 32 == 0 || start == n,
            ranks@.len() == start,
            forall|i: int|
                0 <= i < ranks@.len() ==> #[trigger] ranks@[i] == kept(
                    data@,
                    warp_start(i),
                    i,
                ),
        decreases n - start,
    {
        let mut keep: Vec<bool> = Vec::new();
        let mut lane: usize = 0;
        while lane < LANES
            invariant
                lane <= 32,
                start < n <= data@.len(),
                keep@.len() == lane,
                forall|k: int|
                    0 <= k < lane ==> #[trigger] keep@[k] == (start + k < n && data@[start + k]
                        != 0),
            decreases LANES - lane,
        {
            keep.push(lane < n - start && data[start + lane] != 0);
            lane += 1;
        }
        let mask: u32 = ballot(keep.as_slice());
        let live: usize = if n - start < LANES {
            n - start
        } else {
            LANES
        };
        lane = 0;
        while lane < live
            invariant
                lane <= live <= 32,
                live <= n - start,
                start < n <= data@.len(),
                start % 32 == 0,
                keep@.len() == 32,
                forall|k: int|
                    0 <= k < 32 ==> #[trigger] keep@[k] == (start + k < n && data@[start + k]
                        != 0),
                forall|k: u32| k < 32 ==> #[trigger] has_lane(mask, k) == keep@[k as int],
                ranks@.len() == start + lane,
                forall|i: int|
                    0 <= i < ranks@.len() ==> #[trigger] ranks@[i] == kept(
                        data@,
                        warp_start(i),
                        i,
                    ),
            decreases live - lane,
        {
            ranks.push(compact_rank(mask, lane as u32));
            proof {
                assert((start + lane) % 32 == lane);
                lemma_ballot_counts(mask, data@, start as int, lane as nat);
            }
            lane += 1;
        }
        start = if n - start <= LANES {
            n
        } else {
            start + LANES
        };
    }
    proof {
        assert forall|i: int| 0 <= i < ranks@.len() implies {
            &&& #[trigger] ranks@[i] == data@.subrange(i - i % 32, i).filter(|x: u32| x != 0).len()
            &&& i % 32 == 0 ==> ranks@[i] == 0
            &&& 0 < i && i % 32 != 0 ==> ranks@[i] == ranks@[i - 1] + (if data@[i - 1] != 0 {
                1int
            } else {
                0int
            })
        } by {
            law_rank_counts_its_warp(data@, i);
        }
    }
    ranks
}

/// Exclusive prefix counts of the nonzero items, one pass over `data`, with the count
/// starting anew at each warp.
pub fn prefix_counts(data: &[u32]) -> (counts: Vec<u32>)
    ensures
        counts@.len() == data@.len(),
        forall|i: int|
            0 <= i < data@.len() ==> #[trigger] counts@[i] == kept(data@, warp_start(i), i),
        forall|i: int|
            0 <= i < data@.len() ==> #[trigger] counts@[i] == data@.subrange(i - i % 32, i).filter(
                |x: u32| x != 0,
            ).len(),
        forall|i: int| 0 <= i < data@.len() && i % 32 == 0 ==> #[trigger] counts@[i] == 0,
        forall|i: int|
            0 < i < data@.len() && i % 32 != 0 ==> #[trigger] counts@[i] == counts@[i - 1] + (
            if data@[i - 1] != 0 {
                1int
            } else {
                0int
            }),
{
    let mut counts: Vec<u32> = Vec::new();
    let mut acc: u32 = 0;
    let mut i: usize = 0;
    while i < data.len()
        invariant
            i <= data@.len(),
            counts@.len() == i,
            i % 32 != 0 ==> acc == kept(data@, warp_start(i as int), i as int) && acc <= i % 32,
            forall|j: int| 0 <= j < i ==> #[trigger] counts@[j] == kept(data@, warp_start(j), j),
        decreases data@.len() - i,
    {
        if i % LANES == 0 {
            acc = 0;
        }
        counts.push(acc);
        if data[i] != 0 {
            acc += 1;
        }
        proof {
            let start = warp_start(i as int);
            assert(counts@[i as int] == kept(data@, start, i as int));
            assert(kept(data@, start, i + 1) == acc);
            if (i + 1) % 32 != 0 {
                assert(warp_start(i + 1) == start);
                assert((i + 1) % 32 == i % 32 + 1);
            }
        }
        i += 1;
    }
    proof {
        assert forall|i: int| 0 <= i < counts@.len() implies {
            &&& #[trigger] counts@[i] == data@.subrange(i - i % 32, i).filter(|x: u32| x != 0).len()
            &&& i % 32 == 0 ==> counts@[i] == 0
            &&& 0 < i && i % 32 != 0 ==> counts@[i] == counts@[i - 1] + (if data@[i - 1] != 0 {
                1int
            } else {
                0int
            })
        } by {
            law_rank_counts_its_warp(data@, i);
        }
    }
    counts
}

/// Counting kept items over a longer range never gives less.
proof fn lemma_kept_grows(data: Seq<u32>, lo: int, mid: int, hi: int)
    requires
        lo <= mid <= hi,
    ensures
        kept(data, lo, mid) <= kept(data, lo, hi),
    decreases hi - mid,
{
    if mid < hi {
        lemma_kept_grows(data, lo, mid, hi - 1);
    }
}

/// The ranks of the threads that keep their item rise strictly within a warp: no two
/// of them share a slot, and their order is kept.
pub proof fn law_ranks_of_kept_lanes_rise(data: Seq<u32>, i: int, j: int)
    requires
        0 <= i < j < data.len(),
        warp_start(i) == warp_start(j),
        data[i] != 0,
    ensures
        kept(data, warp_start(i), i) < kept(data, warp_start(j), j),
{
    lemma_kept_grows(data, warp_start(i), i + 1, j);
}

/// A rank is a slot in the compacted output: in the sequence of the warp's nonzero
/// items, the item that a thread keeps stands at the thread's rank.
pub proof fn law_rank_is_compaction_slot(data: Seq<u32>, i: int, end: int)
    requires
        0 <= i < end <= data.len(),
        end <= warp_start(i) + 32,
        data[i] != 0,
    ensures
        kept(data, warp_start(i), i) < data.subrange(warp_start(i), end).filter(
            |x: u32| x != 0,
        ).len(),
        data.subrange(warp_start(i), end).filter(|x: u32| x != 0)[kept(
            data,
            warp_start(i),
            i,
        ) as int] == data[i],
{
    let start = warp_start(i);
    let nonzero = |x: u32| x != 0;
    let before = data.subrange(start, i);
    let after = data.subrange(i, end);
    let rest = data.subrange(i + 1, end);
    law_kept_counts_nonzero_items(data, start, i);
    assert(data.subrange(start, end) =~= before + after);
    assert(after =~= seq![data[i]] + rest);
    Seq::filter_distributes_over_add(before, after, nonzero);
    rest.lemma_filter_prepend(data[i], nonzero);
    assert(after.filter(nonzero)[0] == data[i]);
}

} // verus!
