//! "I can't believe it can sort": for every pair of positions `(i, j)`,
//! in row order, swap when `data[i] < data[j]`.
use vstd::prelude::*;

use super::{exchanged, sorted, SortData, Sorter, Swap};

verus! {

/// No element of `d` exceeds the one at position `m`.
pub open spec fn is_max_at(d: Seq<usize>, m: int) -> bool {
    forall|k: int| 0 <= k < d.len() ==> #[trigger] d[k] <= d[m]
}

/// The positions `0..m` of `d` are in order.
pub open spec fn sorted_prefix(d: Seq<usize>, m: int) -> bool {
    forall|a: int, b: int| 0 <= a < b < m ==> d[a] <= d[b]
}

/// The pair `(a, b)` comes before the pair `(i, j)` in row order.
pub open spec fn before(a: int, b: int, i: int, j: int) -> bool {
    a < i || (a == i && b < j)
}

/// No pair `(a, b)` of positions of `d` from `(i0, j0)` on and before
/// `(i, j)`, in row order, has `d[a] < d[b]`.
pub open spec fn no_swap_between(d: Seq<usize>, i0: int, j0: int, i: int, j: int) -> bool {
    forall|a: int, b: int|
        0 <= a < d.len() && 0 <= b < d.len() && !before(a, b, i0, j0) && #[trigger] before(a, b, i, j)
            ==> !(#[trigger] d[a] < d[b])
}

/// Where the double scan stands: the next pair compared is `(i, j)`.
pub struct ICantBelieveItCanSort {
    pub i: usize,
    pub j: usize,
}

impl ICantBelieveItCanSort {
    /// The cursor is before the first comparison.
    pub open spec fn is_start(&self, d: Seq<usize>) -> bool {
        self.i == 0 && self.j == 0
    }

    /// The cursor before the first comparison.
    pub fn new() -> (r: ICantBelieveItCanSort)
        ensures
            r.i == 0,
            r.j == 0,
    {
        ICantBelieveItCanSort { i: 0, j: 0 }
    }

    /// What holds of the buffer `d` whenever the algorithm is suspended here.
    pub open spec fn inv(&self, d: Seq<usize>) -> bool {
        let n = d.len() as int;
        let i = self.i as int;
        let j = self.j as int;
        &&& i <= n
        &&& j <= n
        &&& i == n ==> sorted(d)
        &&& (i == 0 && i < n) ==> forall|k: int| 0 <= k < j ==> #[trigger] d[k] <= d[0]
        &&& (0 < i < n) ==> {
            &&& sorted_prefix(d, i)
            &&& j < i ==> is_max_at(d, i - 1)
            &&& j < i ==> forall|k: int| 0 <= k < j ==> #[trigger] d[k] <= d[i]
            &&& j >= i ==> is_max_at(d, i) && sorted_prefix(d, i + 1)
        }
    }

    /// What one call of `step` from here does on the buffer `d`: it returns
    /// the first pair `(i, j)` in row order, from the cursor on, with
    /// `d[i] < d[j]`, and leaves the cursor just past it; or `None` when
    /// there is none, with the buffer in order.
    pub open spec fn stepped(&self, d: Seq<usize>, r: Option<Swap>, after: Self) -> bool {
        match r {
            Some(w) => {
                &&& after.i == w.0
                &&& after.j == w.1 + 1
                &&& w.0 != w.1
                &&& w.0 < d.len()
                &&& w.1 < d.len()
                &&& d[w.0 as int] < d[w.1 as int]
                &&& !before(w.0 as int, w.1 as int, self.i as int, self.j as int)
                &&& no_swap_between(d, self.i as int, self.j as int, w.0 as int, w.1 as int)
            },
            None => {
                &&& sorted(d)
                &&& no_swap_between(d, self.i as int, self.j as int, d.len() as int, 0)
            },
        }
    }

    /// Runs to the next significant swap, or to the end of the scan.
    pub fn step(&mut self, data: &mut SortData) -> (r: Option<Swap>)
        requires
            old(self).inv(old(data)@),
        ensures
            final(self).inv(final(data)@),
            old(self).stepped(old(data)@, r, *final(self)),
            match r {
                Some(w) => final(data)@ == exchanged(old(data)@, w.0 as int, w.1 as int),
                None => final(data)@ == old(data)@,
            },
    {
        let n = data.len();
        while self.i < n
            invariant
                n == data@.len(),
                data@ == old(data)@,
                self.inv(data@),
                !before(self.i as int, self.j as int, old(self).i as int, old(self).j as int),
                no_swap_between(data@, old(self).i as int, old(self).j as int, self.i as int, self.j as int),
            decreases n - self.i, n - self.j,
        {
            let i = self.i;
            let j = self.j;
            if j < n {
                self.j = j + 1;
                if data.at(i) < data.at(j) {
                    let ghost d = data@;
                    let w = data.swap(i, j);
                    proof {
                        let e = data@;
                        if i == 0 {
                            assert forall|k: int| 0 <= k < j + 1 implies #[trigger] e[k] <= e[0] by {
                                if k != 0 && k != j {
                                    assert(d[k] <= d[0]);
                                }
                            }
                        } else {
                            assert(j < i) by {
                                if j >= i {
                                    assert(d[j as int] <= d[i as int]);
                                }
                            }
                            let m = d[i - 1];
                            assert forall|a: int, b: int| 0 <= a < b < i implies e[a] <= e[b] by {
                                if b == j {
                                    if a < j {
                                        assert(d[a] <= d[i as int]);
                                    }
                                } else if a == j {
                                    assert(d[j as int] <= d[b]);
                                } else {
                                    assert(d[a] <= d[b]);
                                }
                            }
                            assert forall|k: int| 0 <= k < j + 1 implies #[trigger] e[k] <= e[i as int] by {
                                if k < j {
                                    assert(d[k] <= d[i as int]);
                                }
                            }
                            if j + 1 < i {
                                assert forall|k: int| 0 <= k < n implies #[trigger] e[k] <= e[i - 1] by {
                                    if k == i {
                                        assert(d[j as int] <= m);
                                    } else if k == j {
                                        assert(d[i as int] <= m);
                                    } else {
                                        assert(d[k] <= m);
                                    }
                                }
                            } else {
                                assert forall|k: int| 0 <= k < n implies #[trigger] e[k] <= e[i as int] by {
                                    if k == j {
                                    } else {
                                        assert(d[k] <= m);
                                    }
                                }
                                assert forall|a: int, b: int| 0 <= a < b < i + 1 implies e[a] <= e[b] by {
                                    if b == i {
                                        assert(e[a] <= e[i as int]);
                                    } else {
                                        assert(e[a] <= e[b]);
                                    }
                                }
                            }
                        }
                    }
                    return Some(w);
                }
                proof {
                    let d = data@;
                    assert forall|a: int, b: int|
                        0 <= a < n && 0 <= b < n && !before(a, b, old(self).i as int, old(self).j as int)
                            && #[trigger] before(a, b, i as int, j + 1)
                        implies !(#[trigger] d[a] < d[b]) by {
                        if a == i && b == j {
                        } else {
                            assert(before(a, b, i as int, j as int));
                        }
                    }
                    if i == 0 {
                        assert forall|k: int| 0 <= k < j + 1 implies #[trigger] d[k] <= d[0] by {
                            if k < j {
                            }
                        }
                    } else if j < i {
                        assert forall|k: int| 0 <= k < j + 1 implies #[trigger] d[k] <= d[i as int] by {
                            if k < j {
                            }
                        }
                        if j + 1 == i {
                            let m = d[i - 1];
                            assert(d[i - 1] <= d[i as int]);
                            assert forall|k: int| 0 <= k < n implies #[trigger] d[k] <= d[i as int] by {
                                assert(d[k] <= m);
                            }
                            assert forall|a: int, b: int| 0 <= a < b < i + 1 implies d[a] <= d[b] by {
                                if b == i {
                                    assert(d[a] <= d[i as int]);
                                }
                            }
                        }
                    }
                }
            } else {
                proof {
                    let d = data@;
                    assert forall|a: int, b: int|
                        0 <= a < n && 0 <= b < n && !before(a, b, old(self).i as int, old(self).j as int)
                            && #[trigger] before(a, b, i + 1, 0)
                        implies !(#[trigger] d[a] < d[b]) by {
                        assert(before(a, b, i as int, j as int));
                    }
                    if i == 0 {
                        assert(is_max_at(d, 0));
                    }
                    if i + 1 == n {
                        assert(sorted_prefix(d, i + 1));
                    }
                }
                self.i = i + 1;
                self.j = 0;
            }
        }
        proof {
            let d = data@;
            assert forall|a: int, b: int|
                0 <= a < n && 0 <= b < n && !before(a, b, old(self).i as int, old(self).j as int)
                    && #[trigger] before(a, b, n as int, 0)
                implies !(#[trigger] d[a] < d[b]) by {
                assert(before(a, b, self.i as int, self.j as int));
            }
        }
        None
    }
}

/// Starts the double scan on `data`.
pub fn sort(data: SortData) -> (r: Sorter)
    ensures
        r.wf(),
        r.initial() == data@,
        r.data() == data@,
        r.log() == Seq::<Swap>::empty(),
        !r.is_done(),
        r.cursor() matches super::Cursor::ICantBelieve(c) && c.is_start(data@),
{
    let c = ICantBelieveItCanSort::new();
    Sorter::new(data, super::Cursor::ICantBelieve(c))
}

} // verus!
