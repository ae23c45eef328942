//! Comb sort: passes over pairs `gap` apart, the gap shrinking by a factor
//! of 1.3 each pass, until a pass at gap 1 makes no swap.
use vstd::prelude::*;

use super::{exchanged, sorted, SortData, Sorter, Swap};

verus! {

/// The gap of the pass after a pass at gap `g`: `g / 1.3` rounded down,
/// and at least 1.
#[verifier::opaque]
pub open spec fn next_gap(g: int) -> int {
    if g * 10 / 13 < 1 { 1 } else { g * 10 / 13 }
}

/// The gap `t` passes after a pass at gap `g`.
pub open spec fn gap_after(g: int, t: nat) -> int
    decreases t,
{
    if t == 0 { g } else { next_gap(gap_after(g, (t - 1) as nat)) }
}

/// No pair `(k, k + g)` with `lo <= k < hi` is out of order in `d`.
pub open spec fn clean_at(d: Seq<usize>, g: int, lo: int, hi: int) -> bool {
    forall|k: int| lo <= k < hi && 0 <= k && k + g < d.len() ==> #[trigger] d[k] <= #[trigger] d[k + g]
}

/// The gap of the pass after a pass at gap `g`.
fn shrink(g: usize) -> (r: usize)
    requires
        g >= 1,
    ensures
        r == next_gap(g as int),
        r >= 1,
        r <= g,
        g > 1 ==> r < g,
{
    let mut next = g / 13 * 10 + g % 13 * 10 / 13;
    assert(next == g * 10 / 13) by (nonlinear_arith)
        requires
            next == g / 13 * 10 + g % 13 * 10 / 13,
            g >= 1,
    ;
    assert(g > 1 ==> next < g) by (nonlinear_arith)
        requires
            next == g * 10 / 13,
    ;
    assert(next <= g) by (nonlinear_arith)
        requires
            next == g * 10 / 13,
            g >= 1,
    ;
    if next < 1 {
        next = 1;
    }
    proof {
        reveal(next_gap);
    }
    next
}

/// Where comb sort stands. Within a pass (`in_pass`), the next pair
/// compared is `(i, i + gap)`; between passes, `gap` is that of the pass
/// just finished and `swapped` says whether it swapped.
pub struct Combsort {
    pub gap: usize,
    pub swapped: bool,
    pub in_pass: bool,
    pub i: usize,
    /// How many passes have been started.
    pub passes: Ghost<nat>,
}

impl Combsort {
    /// The cursor is before the first pass over a buffer of length `n`.
    pub open spec fn is_start(&self, d: Seq<usize>) -> bool {
        let n = d.len();
        &&& self.gap == if n == 0 { 1 } else { n }
        &&& self.swapped
        &&& !self.in_pass
        &&& self.i == 0
    }

    /// The cursor before the first pass over a buffer of length `len`.
    pub fn new(len: usize) -> (r: Combsort)
        ensures
            r.gap == if len == 0 { 1 } else { len },
            r.swapped,
            !r.in_pass,
            r.i == 0,
    {
        let gap = if len == 0 { 1 } else { len };
        Combsort { gap, swapped: true, in_pass: false, i: 0, passes: Ghost(0) }
    }

    /// What holds of the buffer `d` whenever the algorithm is suspended here.
    pub open spec fn inv(&self, d: Seq<usize>) -> bool {
        &&& self.gap >= 1
        &&& self.i <= d.len()
        &&& (self.in_pass && self.gap == 1 && !self.swapped) ==> forall|k: int|
            0 <= k < self.i && k + 1 < d.len() ==> #[trigger] d[k] <= #[trigger] d[k + 1]
        &&& (!self.in_pass && self.gap == 1 && !self.swapped) ==> sorted(d)
    }

    /// What one call of `step` from here does on the buffer `d`: it returns
    /// the first pair `(k, k + gap)` that is out of order, from the cursor
    /// on, the passes between going over the shrinking gaps, and leaves the
    /// cursor just past it, the pass marked as having swapped; or `None`
    /// when the buffer is in order.
    pub open spec fn stepped(&self, d: Seq<usize>, r: Option<Swap>, after: Self) -> bool {
        match r {
            Some(w) => {
                let t = after.passes@ - self.passes@;
                &&& w.0 < w.1 < d.len()
                &&& d[w.0 as int] > d[w.1 as int]
                &&& after.in_pass
                &&& w.0 == after.i - 1
                &&& w.1 == w.0 + after.gap
                &&& t >= 0
                &&& after.gap == gap_after(self.gap as int, t as nat)
                &&& after.swapped
                &&& t == 0 ==> self.in_pass && self.i <= w.0 && clean_at(d, self.gap as int, self.i as int, w.0 as int)
                &&& t > 0 ==> {
                    &&& self.in_pass ==> clean_at(d, self.gap as int, self.i as int, d.len() as int)
                    &&& forall|u: nat| 0 < u < t ==> clean_at(d, #[trigger] gap_after(self.gap as int, u), 0, d.len() as int)
                    &&& clean_at(d, after.gap as int, 0, w.0 as int)
                }
            },
            None => sorted(d),
        }
    }

    /// Runs to the next significant swap, or to the end of the last pass.
    pub fn step(&mut self, data: &mut SortData) -> (r: Option<Swap>)
        requires
            old(self).inv(old(data)@),
        ensures
            final(self).inv(final(data)@),
            old(self).stepped(old(data)@, r, *final(self)),
            match r {
                Some(w) => final(data)@ == exchanged(old(data)@, w.0 as int, w.1 as int),
                None => final(data)@ == old(data)@,
            },
            sorted(old(data)@) ==> r is None,
    {
        let n = data.len();
        loop
            invariant
                n == data@.len(),
                data@ == old(data)@,
                self.inv(data@),
                self.passes@ >= old(self).passes@,
                self.gap == gap_after(old(self).gap as int, (self.passes@ - old(self).passes@) as nat),
                self.passes@ == old(self).passes@ ==> self.in_pass ==> old(self).in_pass && old(self).i <= self.i
                    && clean_at(data@, self.gap as int, old(self).i as int, self.i as int),
                self.passes@ == old(self).passes@ && !self.in_pass && old(self).in_pass
                    ==> clean_at(data@, old(self).gap as int, old(self).i as int, n as int),
                self.passes@ > old(self).passes@ ==> {
                    &&& old(self).in_pass ==> clean_at(data@, old(self).gap as int, old(self).i as int, n as int)
                    &&& forall|u: nat| 0 < u < self.passes@ - old(self).passes@
                        ==> clean_at(data@, #[trigger] gap_after(old(self).gap as int, u), 0, n as int)
                    &&& self.in_pass ==> clean_at(data@, self.gap as int, 0, self.i as int)
                    &&& !self.in_pass ==> clean_at(data@, self.gap as int, 0, n as int)
                },
            decreases self.gap, if self.swapped { 1int } else { 0 }, if self.in_pass { 1int } else { 0 }, n - self.i,
        {
            if !self.in_pass {
                if !(self.gap > 1 || self.swapped) {
                    return None;
                }
                let next = shrink(self.gap);
                let ghost t = (self.passes@ - old(self).passes@) as nat;
                proof {
                    assert(gap_after(old(self).gap as int, t + 1) == next_gap(gap_after(old(self).gap as int, t)));
                    let d = data@;
                    assert forall|u: nat| 0 < u < t + 1 implies clean_at(d, #[trigger] gap_after(old(self).gap as int, u), 0, n as int) by {
                        if u < t {
                        }
                    }
                }
                self.gap = next;
                self.swapped = false;
                self.in_pass = true;
                self.i = 0;
                proof {
                    self.passes@ = self.passes@ + 1;
                }
            } else if self.i < n && self.gap < n - self.i {
                let k = self.i;
                let g = self.gap;
                self.i = k + 1;
                proof {
                    let d = data@;
                    if self.passes@ == old(self).passes@ {
                        assert forall|x: int| old(self).i <= x < k implies !(0 <= x && x + g < d.len()) || #[trigger] d[x] <= d[x + g] by {
                        }
                    }
                }
                if data.at(k) > data.at(k + g) {
                    self.swapped = true;
                    let w = data.swap(k, k + g);
                    return Some(w);
                }
            } else {
                self.in_pass = false;
                proof {
                    let d = data@;
                    if self.gap == 1 && !self.swapped {
                        assert forall|a: int| 0 <= a < d.len() - 1 implies #[trigger] d[a] <= d[a + 1] by {
                            assert(a < self.i);
                        }
                        assert(super::adjacent_sorted(d));
                        super::lemma_adjacent_sorted(d);
                    }
                }
            }
        }
    }
}

/// Starts comb sort on `data`.
pub fn sort(data: SortData) -> (r: Sorter)
    ensures
        r.wf(),
        r.initial() == data@,
        r.data() == data@,
        r.log() == Seq::<Swap>::empty(),
        !r.is_done(),
        r.cursor() matches super::Cursor::Comb(c) && c.is_start(data@),
{
    let c = Combsort::new(data.len());
    Sorter::new(data, super::Cursor::Comb(c))
}

} // verus!
