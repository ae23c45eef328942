//! Shell sort over the gaps 57, 23, 10, 4 and 1: an insertion sort within
//! each gap-strided sublist, each shift made as one observable swap.
use vstd::prelude::*;

use super::{exchanged, sorted, SortData, Sorter, Swap};

verus! {

/// The number of gaps.
pub const GAP_COUNT: usize = 5;

/// The gap of the pass numbered `k`.
pub open spec fn gap_at(k: int) -> usize {
    if k == 0 {
        57
    } else if k == 1 {
        23
    } else if k == 2 {
        10
    } else if k == 3 {
        4
    } else {
        1
    }
}

/// The gap of the pass numbered `k`.
pub fn gap(k: usize) -> (r: usize)
    ensures
        r == gap_at(k as int),
        r >= 1,
{
    if k == 0 {
        57
    } else if k == 1 {
        23
    } else if k == 2 {
        10
    } else if k == 3 {
        4
    } else {
        1
    }
}

/// Where shell sort stands: in pass `pass`, the element taken at position
/// `i` is being moved down and now sits at `j` (`inserting`), or the next
/// element to take is at `i`.
pub struct Shellsort {
    pub pass: usize,
    pub i: usize,
    pub j: usize,
    pub inserting: bool,
}

/// The positions `lo..=hi` of `d` are in order.
pub open spec fn sorted_between(d: Seq<usize>, lo: int, hi: int) -> bool {
    forall|a: int, b: int| lo <= a < b <= hi ==> d[a] <= d[b]
}

/// Position `i` of pass `p` is out of order with the element one gap
/// before it, so inserting it starts with a swap.
pub open spec fn starts_with_shift(d: Seq<usize>, p: int, i: int) -> bool {
    &&& 0 <= p < GAP_COUNT
    &&& gap_at(p) <= i < d.len()
    &&& d[i - gap_at(p)] > d[i]
}

/// `(p, i)` comes before `(q, k)`: an earlier pass, or an earlier position
/// in the same pass.
pub open spec fn before(p: int, i: int, q: int, k: int) -> bool {
    p < q || (p == q && i < k)
}

/// No position from `(p0, i0)` on and before `(p, i)` starts with a swap.
pub open spec fn no_shift_between(d: Seq<usize>, p0: int, i0: int, p: int, i: int) -> bool {
    forall|q: int, k: int|
        !before(q, k, p0, i0) && #[trigger] before(q, k, p, i) ==> !starts_with_shift(d, q, k)
}

/// Whether the element being inserted moves down once more.
pub open spec fn shifts_again(c: Shellsort, d: Seq<usize>) -> bool {
    c.inserting && c.j >= gap_at(c.pass as int) && d[c.j - gap_at(c.pass as int)] > d[c.j as int]
}

/// The position from which the search for the next element to insert goes on.
pub open spec fn resume_at(c: Shellsort) -> int {
    if c.inserting { c.i + 1 } else { c.i as int }
}

impl Shellsort {
    /// The cursor is before the first pass over a buffer of length `n`.
    pub open spec fn is_start(&self, d: Seq<usize>) -> bool {
        let n = d.len();
        &&& self.pass == 0
        &&& self.i == if gap_at(0) < n { gap_at(0) as nat } else { n }
        &&& !self.inserting
    }

    /// The cursor before the first pass over a buffer of length `len`.
    pub fn new(len: usize) -> (r: Shellsort)
        ensures
            r.pass == 0,
            r.i == if gap_at(0) < len { gap_at(0) } else { len },
            !r.inserting,
    {
        let g = gap(0);
        let i = if g < len { g } else { len };
        Shellsort { pass: 0, i, j: 0, inserting: false }
    }

    /// What holds of the buffer `d` whenever the algorithm is suspended here.
    pub open spec fn inv(&self, d: Seq<usize>) -> bool {
        let n = d.len() as int;
        &&& self.pass <= GAP_COUNT
        &&& self.i <= n
        &&& self.pass == GAP_COUNT ==> sorted(d)
        &&& self.inserting ==> {
            &&& self.pass < GAP_COUNT
            &&& self.i < n
            &&& self.j <= self.i
        }
        &&& (self.pass == GAP_COUNT - 1 && !self.inserting) ==> sorted_between(d, 0, self.i - 1)
        &&& (self.pass == GAP_COUNT - 1 && self.inserting) ==> {
            &&& sorted_between(d, 0, self.j - 1)
            &&& sorted_between(d, self.j as int, self.i as int)
            &&& forall|a: int, b: int| 0 <= a < self.j < b <= self.i ==> d[a] <= d[b]
        }
    }

    /// What one call of `step` from here does on the buffer `d`: the element
    /// being inserted moves down one gap again, or else the next element that
    /// is out of order with the one a gap before it starts moving; `None`
    /// when no such element is left, with the buffer in order. After a swap
    /// the cursor follows the moving element to its new place.
    pub open spec fn stepped(&self, d: Seq<usize>, r: Option<Swap>, after: Self) -> bool {
        &&& r matches Some(w) ==> {
            &&& w.1 < w.0 < d.len()
            &&& d[w.1 as int] > d[w.0 as int]
        }
        &&& r is None ==> sorted(d)
        &&& shifts_again(*self, d) ==> {
            &&& r == Some(Swap(self.j, (self.j - gap_at(self.pass as int)) as usize))
            &&& after.pass == self.pass
            &&& after.i == self.i
            &&& after.j == self.j - gap_at(self.pass as int)
            &&& after.inserting
        }
        &&& !shifts_again(*self, d) ==> match r {
            Some(w) => {
                &&& after.inserting
                &&& after.j == w.1
                &&& w.0 == after.i
                &&& w.1 == after.i - gap_at(after.pass as int)
                &&& starts_with_shift(d, after.pass as int, after.i as int)
                &&& !before(after.pass as int, after.i as int, self.pass as int, resume_at(*self))
                &&& no_shift_between(d, self.pass as int, resume_at(*self), after.pass as int, after.i as int)
            },
            None => no_shift_between(d, self.pass as int, resume_at(*self), GAP_COUNT as int, 0),
        }
    }

    /// Runs to the next significant swap, or to the end of the last pass.
    pub fn step(&mut self, data: &mut SortData) -> (r: Option<Swap>)
        requires
            old(self).inv(old(data)@),
        ensures
            final(self).inv(final(data)@),
            old(self).stepped(old(data)@, r, *final(self)),
            match r {
                Some(w) => final(data)@ == exchanged(old(data)@, w.0 as int, w.1 as int),
                None => final(data)@ == old(data)@,
            },
            sorted(old(data)@) ==> r is None,
    {
        let n = data.len();
        let ghost p0 = self.pass as int;
        let ghost s0 = resume_at(*self);
        while self.pass < GAP_COUNT
            invariant
                n == data@.len(),
                data@ == old(data)@,
                self.inv(data@),
                p0 == old(self).pass,
                s0 == resume_at(*old(self)),
                no_shift_between(data@, p0, s0, self.pass as int, self.i as int),
                self.inserting && *self == *old(self) || !before(self.pass as int, self.i as int, p0, s0),
                self.inserting && *self != *old(self) ==> self.j == self.i,
                shifts_again(*old(self), old(data)@) ==> *self == *old(self),
            decreases GAP_COUNT - self.pass, 2 * (n - self.i) + if self.inserting { 0int } else { 1 },
        {
            let g = gap(self.pass);
            if self.inserting {
                let j = self.j;
                proof {
                    if *self != *old(self) {
                        assert(j == self.i);
                    }
                }
                if j >= g && data.at(j - g) > data.at(j) {
                    let ghost d = data@;
                    let w = data.swap(j, j - g);
                    self.j = j - g;
                    proof {
                        let e = data@;
                        let i = self.i as int;
                        if self.pass == GAP_COUNT - 1 {
                            assert(sorted_between(e, 0, j - 2));
                            assert forall|a: int, b: int| j - 1 <= a < b <= i implies e[a] <= e[b] by {
                                if a == j - 1 && b > j {
                                    assert(d[j - 1] <= d[b]);
                                    assert(d[j as int] <= d[b]);
                                }
                                if a == j {
                                    assert(d[j - 1] <= d[b]);
                                }
                            }
                            assert forall|a: int, b: int| 0 <= a < j - 1 < b <= i implies e[a] <= e[b] by {
                                if b == j {
                                    assert(d[a] <= d[j - 1]);
                                } else {
                                    assert(d[a] <= d[b]);
                                }
                            }
                        }
                    }
                    return Some(w);
                }
                proof {
                    let d = data@;
                    let i = self.i as int;
                    if *self != *old(self) {
                        assert(!starts_with_shift(d, self.pass as int, i));
                    }
                    assert forall|q: int, k: int|
                        !before(q, k, p0, s0) && #[trigger] before(q, k, self.pass as int, i + 1)
                        implies !starts_with_shift(d, q, k) by {
                        if before(q, k, self.pass as int, i) {
                        }
                    }
                    if self.pass == GAP_COUNT - 1 {
                        assert forall|a: int, b: int| 0 <= a < b <= i implies d[a] <= d[b] by {
                            if a < j && b > j {
                            } else if a < j && b == j {
                                if a < j - 1 {
                                    assert(d[a] <= d[j - 1]);
                                }
                            }
                        }
                    }
                }
                self.inserting = false;
                self.i = self.i + 1;
            } else if self.i < n {
                self.inserting = true;
                self.j = self.i;
            } else {
                let ghost p = self.pass as int;
                let ghost i = self.i as int;
                self.pass = self.pass + 1;
                if self.pass < GAP_COUNT {
                    let h = gap(self.pass);
                    self.i = if h < n { h } else { n };
                }
                proof {
                    let d = data@;
                    assert forall|q: int, k: int|
                        !before(q, k, p0, s0) && #[trigger] before(q, k, self.pass as int, self.i as int)
                        implies !starts_with_shift(d, q, k) by {
                        if before(q, k, p, i) {
                        }
                    }
                }
            }
        }
        proof {
            let d = data@;
            assert forall|q: int, k: int|
                !before(q, k, p0, s0) && #[trigger] before(q, k, GAP_COUNT as int, 0)
                implies !starts_with_shift(d, q, k) by {
                assert(before(q, k, self.pass as int, self.i as int));
            }
        }
        None
    }
}

/// Starts shell sort on `data`.
pub fn sort(data: SortData) -> (r: Sorter)
    ensures
        r.wf(),
        r.initial() == data@,
        r.data() == data@,
        r.log() == Seq::<Swap>::empty(),
        !r.is_done(),
        r.cursor() matches super::Cursor::Shell(c) && c.is_start(data@),
{
    let c = Shellsort::new(data.len());
    Sorter::new(data, super::Cursor::Shell(c))
}

} // verus!
