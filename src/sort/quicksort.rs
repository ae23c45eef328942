//! Quick sort with Lomuto partitioning around the last element. The
//! recursion runs once, up front, on a scratch copy of the buffer; the swaps
//! it records are then replayed on the real buffer one call at a time.
use vstd::prelude::*;

use super::{exchanged, lemma_replay_concat, lemma_replay_push, replay, sorted, swap_in_bounds, SortData, Sorter, Swap};

verus! {

/// The positions `lo..=hi` of `d` are in order.
pub open spec fn sorted_between(d: Seq<usize>, lo: int, hi: int) -> bool {
    forall|a: int, b: int| lo <= a < b <= hi ==> d[a] <= d[b]
}

/// Every element at positions `lo..=hi` of `d` lies within `lb..=ub`.
pub open spec fn bounded_between(d: Seq<usize>, lo: int, hi: int, lb: int, ub: int) -> bool {
    forall|k: int| lo <= k <= hi ==> lb <= #[trigger] d[k] <= ub
}

/// `d` and `e` agree outside the positions `lo..=hi`.
pub open spec fn same_outside(d: Seq<usize>, e: Seq<usize>, lo: int, hi: int) -> bool {
    &&& d.len() == e.len()
    &&& forall|k: int| 0 <= k < d.len() && !(lo <= k <= hi) ==> #[trigger] d[k] == e[k]
}

/// Every swap of `swaps` lies within a buffer of length `n`.
pub open spec fn all_in_bounds(swaps: Seq<Swap>, n: nat) -> bool {
    forall|k: int| 0 <= k < swaps.len() ==> swap_in_bounds(#[trigger] swaps[k], n)
}

/// How many of the positions `lo..j` of `d` hold an element below `pv`.
pub open spec fn count_below(d: Seq<usize>, lo: int, j: int, pv: usize) -> nat
    decreases j - lo,
{
    if j <= lo {
        0
    } else {
        count_below(d, lo, j - 1, pv) + if d[j - 1] < pv { 1nat } else { 0 }
    }
}

/// The exchanges that a Lomuto scan of the positions `lo..j` makes around
/// the pivot `d[hi]`: each element below the pivot goes to the next free
/// place of the low part. The scanned positions are never touched before
/// they are read, so `d` gives every comparison.
pub open spec fn scan_swaps(d: Seq<usize>, lo: int, hi: int, j: int) -> Seq<Swap>
    decreases j - lo,
{
    if j <= lo {
        Seq::empty()
    } else {
        let s = scan_swaps(d, lo, hi, j - 1);
        if d[j - 1] < d[hi] {
            s.push(Swap((lo + count_below(d, lo, j - 1, d[hi])) as usize, (j - 1) as usize))
        } else {
            s
        }
    }
}

/// Where the pivot `d[hi]` ends up when `lo..=hi` is partitioned.
pub open spec fn partition_point(d: Seq<usize>, lo: int, hi: int) -> int {
    lo + count_below(d, lo, hi, d[hi])
}

/// The exchanges of a Lomuto partition of `lo..=hi`: the scan, then the
/// pivot moved into place.
pub open spec fn partition_swaps(d: Seq<usize>, lo: int, hi: int) -> Seq<Swap> {
    scan_swaps(d, lo, hi, hi).push(Swap(partition_point(d, lo, hi) as usize, hi as usize))
}

/// The exchanges that recursive Lomuto quick sort makes on `lo..=hi` of
/// `d`: the partition, then the part below the pivot, then the part above.
pub open spec fn quicksort_swaps(d: Seq<usize>, lo: int, hi: int) -> Seq<Swap>
    decreases hi - lo,
    via quicksort_swaps_decreases
{
    if 0 <= lo < hi < d.len() {
        let ps = partition_swaps(d, lo, hi);
        let p = partition_point(d, lo, hi);
        let d1 = replay(d, ps);
        let left = if p > lo { quicksort_swaps(d1, lo, p - 1) } else { Seq::empty() };
        let d2 = replay(d1, left);
        let right = if p < hi { quicksort_swaps(d2, p + 1, hi) } else { Seq::empty() };
        ps + left + right
    } else {
        Seq::empty()
    }
}

#[via_fn]
proof fn quicksort_swaps_decreases(d: Seq<usize>, lo: int, hi: int) {
    if 0 <= lo < hi < d.len() {
        lemma_count_below_bound(d, lo, hi, d[hi]);
    }
}

proof fn lemma_count_below_bound(d: Seq<usize>, lo: int, j: int, pv: usize)
    ensures
        j >= lo ==> count_below(d, lo, j, pv) <= j - lo,
    decreases j - lo,
{
    if j > lo {
        lemma_count_below_bound(d, lo, j - 1, pv);
    }
}

/// The swaps that quick sort records on a buffer `d`.
pub open spec fn quick_plan(d: Seq<usize>) -> Seq<Swap> {
    quicksort_swaps(d, 0, d.len() - 1)
}

/// Swaps `a` and `b` in the scratch buffer and records the swap.
fn record(data: &mut SortData, a: usize, b: usize, swaps: &mut Vec<Swap>, init: Ghost<Seq<usize>>)
    requires
        a < old(data)@.len(),
        b < old(data)@.len(),
        old(data)@ == replay(init@, old(swaps)@),
        all_in_bounds(old(swaps)@, old(data)@.len()),
    ensures
        final(data)@ == exchanged(old(data)@, a as int, b as int),
        final(swaps)@ == old(swaps)@.push(Swap(a, b)),
        final(data)@ == replay(init@, final(swaps)@),
        all_in_bounds(final(swaps)@, final(data)@.len()),
{
    let w = data.swap(a, b);
    proof {
        lemma_replay_push(init@, swaps@, w);
    }
    swaps.push(w);
}

/// Partitions `low..=high` around the element at `high`, and returns where
/// that element ends up.
fn pivot(
    data: &mut SortData,
    low: usize,
    high: usize,
    swaps: &mut Vec<Swap>,
    init: Ghost<Seq<usize>>,
    lb: Ghost<int>,
    ub: Ghost<int>,
) -> (p: usize)
    requires
        low <= high < old(data)@.len(),
        old(data)@ == replay(init@, old(swaps)@),
        all_in_bounds(old(swaps)@, old(data)@.len()),
        bounded_between(old(data)@, low as int, high as int, lb@, ub@),
    ensures
        low <= p <= high,
        same_outside(old(data)@, final(data)@, low as int, high as int),
        final(data)@ == replay(init@, final(swaps)@),
        all_in_bounds(final(swaps)@, final(data)@.len()),
        bounded_between(final(data)@, low as int, high as int, lb@, ub@),
        forall|k: int| low <= k < p ==> #[trigger] final(data)@[k] < final(data)@[p as int],
        forall|k: int| p < k <= high ==> #[trigger] final(data)@[k] >= final(data)@[p as int],
        p == partition_point(old(data)@, low as int, high as int),
        final(data)@[p as int] == old(data)@[high as int],
        final(swaps)@ == old(swaps)@ + partition_swaps(old(data)@, low as int, high as int),
        final(data)@ == replay(old(data)@, partition_swaps(old(data)@, low as int, high as int)),
{
    let pivot = data.at(high);
    let ghost d0 = data@;
    let ghost s0 = swaps@;
    let mut i = low;
    let mut j = low;
    while j < high
        invariant
            low <= i <= j <= high < data@.len(),
            data@[high as int] == pivot,
            same_outside(d0, data@, low as int, high as int),
            data@ == replay(init@, swaps@),
            all_in_bounds(swaps@, data@.len()),
            bounded_between(data@, low as int, high as int, lb@, ub@),
            forall|k: int| low <= k < i ==> #[trigger] data@[k] < pivot,
            forall|k: int| i <= k < j ==> #[trigger] data@[k] >= pivot,
            i == low + count_below(d0, low as int, j as int, pivot),
            swaps@ == s0 + scan_swaps(d0, low as int, high as int, j as int),
            data@ == replay(d0, scan_swaps(d0, low as int, high as int, j as int)),
            forall|k: int| j <= k <= high ==> #[trigger] data@[k] == d0[k],
        decreases high - j,
    {
        let ghost sc = scan_swaps(d0, low as int, high as int, j as int);
        if data.at(j) < pivot {
            let ghost d = data@;
            record(data, i, j, swaps, init);
            proof {
                let e = data@;
                assert(d0[j as int] < d0[high as int]);
                assert(scan_swaps(d0, low as int, high as int, j + 1) == sc.push(Swap(i, j)));
                assert(s0 + sc.push(Swap(i, j)) =~= (s0 + sc).push(Swap(i, j)));
                lemma_replay_push(d0, sc, Swap(i, j));
                assert forall|k: int| low <= k <= high implies lb@ <= #[trigger] e[k] <= ub@ by {
                    if k == i {
                        assert(lb@ <= d[j as int] <= ub@);
                    } else if k == j {
                        assert(lb@ <= d[i as int] <= ub@);
                    } else {
                        assert(lb@ <= d[k] <= ub@);
                    }
                }
                assert forall|k: int| i + 1 <= k < j + 1 implies #[trigger] e[k] >= pivot by {
                    if k == j {
                        if i < j {
                            assert(d[i as int] >= pivot);
                        }
                    } else {
                        assert(d[k] >= pivot);
                    }
                }
            }
            i = i + 1;
        } else {
            assert(!(d0[j as int] < d0[high as int]));
            assert(scan_swaps(d0, low as int, high as int, j + 1) == sc);
        }
        j = j + 1;
    }
    let ghost d = data@;
    let ghost sc = scan_swaps(d0, low as int, high as int, high as int);
    record(data, i, high, swaps, init);
    proof {
        let e = data@;
        assert(s0 + sc.push(Swap(i, high)) =~= (s0 + sc).push(Swap(i, high)));
        lemma_replay_push(d0, sc, Swap(i, high));
        assert forall|k: int| low <= k <= high implies lb@ <= #[trigger] e[k] <= ub@ by {
            if k == i {
                assert(lb@ <= d[high as int] <= ub@);
            } else if k == high {
                assert(lb@ <= d[i as int] <= ub@);
            } else {
                assert(lb@ <= d[k] <= ub@);
            }
        }
        assert forall|k: int| i < k <= high implies #[trigger] e[k] >= e[i as int] by {
            if k == high {
                assert(d[i as int] >= pivot);
            } else {
                assert(d[k] >= pivot);
            }
        }
    }
    i
}

/// Sorts `low..=high` of the scratch buffer, recording each swap.
#[verifier::rlimit(40)]
fn quicksort(
    data: &mut SortData,
    low: usize,
    high: usize,
    swaps: &mut Vec<Swap>,
    init: Ghost<Seq<usize>>,
    lb: Ghost<int>,
    ub: Ghost<int>,
)
    requires
        high < old(data)@.len(),
        old(data)@ == replay(init@, old(swaps)@),
        all_in_bounds(old(swaps)@, old(data)@.len()),
        bounded_between(old(data)@, low as int, high as int, lb@, ub@),
    ensures
        same_outside(old(data)@, final(data)@, low as int, high as int),
        final(data)@ == replay(init@, final(swaps)@),
        all_in_bounds(final(swaps)@, final(data)@.len()),
        bounded_between(final(data)@, low as int, high as int, lb@, ub@),
        sorted_between(final(data)@, low as int, high as int),
        final(swaps)@ == old(swaps)@ + quicksort_swaps(old(data)@, low as int, high as int),
        final(data)@ == replay(old(data)@, quicksort_swaps(old(data)@, low as int, high as int)),
    decreases high + 1 - low,
{
    let ghost d0 = data@;
    let ghost s0 = swaps@;
    if low < high {
        let p = pivot(data, low, high, swaps, init, lb, ub);
        let ghost pv = data@[p as int] as int;
        let ghost d1 = data@;
        if p > 0 {
            quicksort(data, low, p - 1, swaps, init, lb, Ghost(pv - 1));
        }
        let ghost d2 = data@;
        assert forall|k: int| p + 1 <= k <= high implies pv <= #[trigger] d2[k] <= ub@ by {
            assert(d1[k] == d2[k]);
            assert(d1[k] >= pv);
            assert(d1[k] <= ub@);
        }
        if p < high {
            quicksort(data, p + 1, high, swaps, init, Ghost(pv), ub);
        }
        proof {
            let e = data@;
            let ps = partition_swaps(d0, low as int, high as int);
            let left = if p > low { quicksort_swaps(d1, low as int, p - 1) } else { Seq::<Swap>::empty() };
            let right = if p < high { quicksort_swaps(d2, p + 1, high as int) } else { Seq::<Swap>::empty() };
            assert(quicksort_swaps(d0, low as int, high as int) == ps + left + right);
            assert(d2 == replay(d1, left));
            assert(e == replay(d2, right));
            assert(swaps@ =~= s0 + (ps + left + right));
            lemma_replay_concat(d0, ps, left);
            lemma_replay_concat(d0, ps + left, right);
            assert(e[p as int] == pv);
            assert forall|k: int| low <= k < p implies #[trigger] e[k] < pv by {
                assert(d2[k] <= pv - 1);
            }
            assert forall|k: int| p < k <= high implies #[trigger] e[k] >= pv by {
            }
            assert forall|k: int| low <= k <= high implies lb@ <= #[trigger] e[k] <= ub@ by {
                if k < p {
                    assert(lb@ <= d2[k]);
                    assert(d1[k] <= ub@);
                } else if k == p {
                    assert(d1[k] <= ub@);
                }
            }
            assert forall|a: int, b: int| low <= a < b <= high implies e[a] <= e[b] by {
                if a < p && b < p {
                    assert(d2[a] <= d2[b]);
                } else if a < p {
                    assert(e[a] < pv);
                }
            }
        }
    }
}

/// Replays, on the real buffer, the swaps that quick sort recorded on a
/// scratch copy of it; `target` is where the scratch copy ended up.
pub struct Quicksort {
    pub swaps: Vec<Swap>,
    pub pos: usize,
    pub initial: Ghost<Seq<usize>>,
    pub target: Ghost<Seq<usize>>,
}

impl Quicksort {
    /// The replay on the buffer `d` has not begun, and the recorded swaps
    /// are those of quick sort on `d`.
    pub open spec fn is_start(&self, d: Seq<usize>) -> bool {
        &&& self.pos == 0
        &&& self.initial@ == d
        &&& self.swaps@ == quick_plan(d)
    }

    /// What holds of the buffer `d` whenever the replay is suspended here.
    pub open spec fn inv(&self, d: Seq<usize>) -> bool {
        &&& d.len() == self.initial@.len()
        &&& self.pos <= self.swaps@.len()
        &&& all_in_bounds(self.swaps@, d.len())
        &&& d == replay(self.initial@, self.swaps@.subrange(0, self.pos as int))
        &&& self.target@ == replay(self.initial@, self.swaps@)
        &&& sorted(self.target@)
    }

    /// What one call of `step` from here does on the buffer `d`: it returns
    /// the next recorded swap of two distinct positions, or `None` when no
    /// such swap is left, with the buffer in order.
    pub open spec fn stepped(&self, d: Seq<usize>, r: Option<Swap>, after: Self) -> bool {
        &&& after.swaps@ == self.swaps@
        &&& after.initial == self.initial
        &&& after.target == self.target
        &&& match r {
            Some(w) => {
                &&& self.pos < after.pos
                &&& after.pos <= self.swaps@.len()
                &&& w == self.swaps@[after.pos - 1]
                &&& forall|k: int| self.pos <= k < after.pos - 1
                    ==> (#[trigger] self.swaps@[k]).0 == self.swaps@[k].1
                &&& w.0 != w.1
                &&& swap_in_bounds(w, d.len())
            },
            None => {
                &&& forall|k: int| self.pos <= k < self.swaps@.len()
                    ==> (#[trigger] self.swaps@[k]).0 == self.swaps@[k].1
                &&& sorted(d)
            },
        }
    }

    /// Runs quick sort on a scratch copy of `data` and records its swaps.
    pub fn new(data: &SortData) -> (r: Quicksort)
        ensures
            r.inv(data@),
            r.initial@ == data@,
            r.pos == 0,
            r.is_start(data@),
    {
        let ghost init = data@;
        let mut scratch = SortData::new(data.to_vec());
        let mut swaps: Vec<Swap> = Vec::new();
        let n = scratch.len();
        if n > 0 {
            quicksort(&mut scratch, 0, n - 1, &mut swaps, Ghost(init), Ghost(0), Ghost(usize::MAX as int));
        }
        let ghost target = scratch@;
        proof {
            assert(swaps@.subrange(0, 0) =~= Seq::<Swap>::empty());
        }
        Quicksort { swaps, pos: 0, initial: Ghost(init), target: Ghost(target) }
    }

    /// Replays recorded swaps up to the next significant one, or to the end.
    pub fn step(&mut self, data: &mut SortData) -> (r: Option<Swap>)
        requires
            old(self).inv(old(data)@),
        ensures
            final(self).inv(final(data)@),
            old(self).stepped(old(data)@, r, *final(self)),
            match r {
                Some(w) => final(data)@ == exchanged(old(data)@, w.0 as int, w.1 as int),
                None => final(data)@ == old(data)@,
            },
    {
        let len = self.swaps.len();
        while self.pos < len
            invariant
                len == self.swaps@.len(),
                self.swaps@ == old(self).swaps@,
                self.initial == old(self).initial,
                self.target == old(self).target,
                data@ == old(data)@,
                self.inv(data@),
                old(self).pos <= self.pos,
                forall|k: int| old(self).pos <= k < self.pos
                    ==> (#[trigger] old(self).swaps@[k]).0 == old(self).swaps@[k].1,
            decreases len - self.pos,
        {
            let pos = self.pos;
            let w = self.swaps[pos];
            self.pos = pos + 1;
            proof {
                assert(self.swaps@.subrange(0, pos as int).push(w) =~= self.swaps@.subrange(0, pos + 1));
                lemma_replay_push(self.initial@, self.swaps@.subrange(0, pos as int), w);
                assert(swap_in_bounds(self.swaps@[pos as int], data@.len()));
            }
            if w.0 != w.1 {
                let r = data.swap(w.0, w.1);
                return Some(r);
            }
            proof {
                assert(exchanged(data@, w.0 as int, w.1 as int) =~= data@);
            }
        }
        proof {
            assert(self.swaps@.subrange(0, len as int) =~= self.swaps@);
        }
        None
    }
}

/// Starts quick sort on `data`.
pub fn sort(data: SortData) -> (r: Sorter)
    ensures
        r.wf(),
        r.initial() == data@,
        r.data() == data@,
        r.log() == Seq::<Swap>::empty(),
        !r.is_done(),
        r.cursor() matches super::Cursor::Quick(c) && c.is_start(data@),
{
    let c = Quicksort::new(&data);
    Sorter::new(data, super::Cursor::Quick(c))
}

} // verus!
