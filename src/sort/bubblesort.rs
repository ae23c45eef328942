//! Bubble sort: one full pass over the adjacent pairs for each element,
//! with no early exit.
use vstd::prelude::*;

use super::{exchanged, sorted, SortData, Sorter, Swap};

verus! {

/// The elements from position `m` on are in order, and none of them is
/// smaller than an element before `m`.
pub open spec fn settled_from(d: Seq<usize>, m: int) -> bool {
    &&& forall|a: int, b: int| m <= a < b < d.len() ==> d[a] <= d[b]
    &&& forall|a: int, b: int| 0 <= a < m <= b < d.len() ==> d[a] <= d[b]
}

/// The adjacent pair `(k - 1, k)` of `d` is out of order.
pub open spec fn inverted_at(d: Seq<usize>, k: int) -> bool {
    0 < k < d.len() && d[k - 1] > d[k]
}

/// No adjacent pair `(k - 1, k)` with `lo <= k < hi` is out of order.
pub open spec fn clean_between(d: Seq<usize>, lo: int, hi: int) -> bool {
    forall|k: int| lo <= k < hi ==> !#[trigger] inverted_at(d, k)
}

/// Where bubble sort stands: in pass `pass`, the next pair compared is
/// `(j - 1, j)`.
pub struct Bubblesort {
    pub pass: usize,
    pub j: usize,
}

impl Bubblesort {
    /// The cursor is at the start of the first pass.
    pub open spec fn is_start(&self, d: Seq<usize>) -> bool {
        self.pass == 0 && self.j == 1
    }

    /// The cursor at the start of the first pass.
    pub fn new() -> (r: Bubblesort)
        ensures
            r.pass == 0,
            r.j == 1,
    {
        Bubblesort { pass: 0, j: 1 }
    }

    /// What holds of the buffer `d` whenever the algorithm is suspended here.
    pub open spec fn inv(&self, d: Seq<usize>) -> bool {
        let n = d.len() as int;
        let m = n - self.pass;
        &&& self.pass >= n ==> sorted(d)
        &&& self.pass < n ==> {
            &&& 1 <= self.j <= n
            &&& settled_from(d, m)
            &&& forall|k: int| 0 <= k < self.j ==> #[trigger] d[k] <= d[self.j - 1]
            &&& self.j >= m ==> settled_from(d, m - 1)
        }
    }

    /// What one call of `step` from here does on the buffer `d`: it returns
    /// the first out-of-order adjacent pair from the cursor on, going round
    /// to the start of the next pass, and leaves the cursor just past it; or
    /// `None` when the buffer is in order.
    pub open spec fn stepped(&self, d: Seq<usize>, r: Option<Swap>, after: Self) -> bool {
        match r {
            Some(w) => {
                &&& after.j == w.1 + 1
                &&& after.pass == if w.1 >= self.j { self.pass as int } else { self.pass + 1 }
                &&& w.1 == w.0 + 1
                &&& inverted_at(d, w.1 as int)
                &&& w.1 >= self.j ==> clean_between(d, self.j as int, w.1 as int)
                &&& w.1 < self.j ==> {
                    &&& clean_between(d, self.j as int, d.len() as int)
                    &&& clean_between(d, 1, w.1 as int)
                }
            },
            None => sorted(d),
        }
    }

    /// Runs to the next significant swap, or to the end of the last pass.
    pub fn step(&mut self, data: &mut SortData) -> (r: Option<Swap>)
        requires
            old(self).inv(old(data)@),
        ensures
            final(self).inv(final(data)@),
            old(self).stepped(old(data)@, r, *final(self)),
            match r {
                Some(w) => final(data)@ == exchanged(old(data)@, w.0 as int, w.1 as int),
                None => final(data)@ == old(data)@,
            },
            sorted(old(data)@) ==> r is None,
    {
        let n = data.len();
        let ghost j0 = self.j as int;
        let ghost mut wrapped = false;
        while self.pass < n
            invariant
                n == data@.len(),
                data@ == old(data)@,
                self.inv(data@),
                j0 == old(self).j,
                old(self).pass < n ==> 1 <= j0 <= n,
                !wrapped ==> self.pass == old(self).pass && j0 <= self.j && clean_between(data@, j0, self.j as int),
                wrapped ==> clean_between(data@, j0, n as int) && clean_between(data@, 1, self.j as int),
                wrapped ==> self.pass == old(self).pass + 1 || clean_between(data@, 1, n as int),
            decreases n - self.pass, n - self.j,
        {
            if self.j < n {
                let j = self.j;
                if data.at(j - 1) > data.at(j) {
                    let ghost d = data@;
                    let ghost m = n - self.pass;
                    let w = data.swap(j - 1, j);
                    self.j = j + 1;
                    proof {
                        let e = data@;
                        assert(inverted_at(d, j as int));
                        if wrapped {
                            assert(self.pass == old(self).pass + 1);
                            assert(j < j0);
                            assert(clean_between(d, j0, n as int));
                            assert(clean_between(d, 1, j as int));
                        } else {
                            assert(clean_between(d, j0, j as int));
                        }
                        assert(j < m) by {
                            if j >= m {
                                assert(d[j - 1] <= d[j as int]);
                            }
                        }
                        assert forall|k: int| 0 <= k < j + 1 implies e[k] <= e[j as int] by {
                            if k < j - 1 {
                                assert(d[k] <= d[j - 1]);
                            }
                        }
                        assert(settled_from(e, m)) by {
                            assert forall|a: int, b: int| 0 <= a < m <= b < n implies e[a] <= e[b] by {
                                if a == j - 1 {
                                    assert(d[j as int] <= d[b]);
                                } else if a == j {
                                    assert(d[j - 1] <= d[b]);
                                } else {
                                    assert(d[a] <= d[b]);
                                }
                            }
                            assert forall|a: int, b: int| m <= a < b < n implies e[a] <= e[b] by {
                                assert(d[a] <= d[b]);
                            }
                        }
                        if j + 1 >= m {
                            assert(settled_from(e, m - 1)) by {
                                assert forall|a: int, b: int| m - 1 <= a < b < n implies e[a] <= e[b] by {
                                    if a == m - 1 && b >= m {
                                        assert(e[a] <= e[b]);
                                    }
                                }
                            }
                        }
                    }
                    return Some(w);
                }
                self.j = j + 1;
                proof {
                    let d = data@;
                    assert(!inverted_at(d, j as int));
                    let m = n - self.pass;
                    assert forall|k: int| 0 <= k < j + 1 implies d[k] <= d[j as int] by {
                        if k < j {
                            assert(d[k] <= d[j - 1]);
                        }
                    }
                    if j + 1 == m {
                        assert(settled_from(d, m - 1)) by {
                            assert forall|a: int, b: int| m - 1 <= a < b < n implies d[a] <= d[b] by {
                                if a == m - 1 && b >= m {
                                    assert(d[a] <= d[b]);
                                }
                            }
                        }
                    }
                }
            } else {
                proof {
                    let d = data@;
                    let m = n - self.pass;
                    if self.pass + 1 >= n {
                        assert(sorted(d)) by {
                            assert forall|a: int, b: int| 0 <= a < b < n implies d[a] <= d[b] by {
                                if a >= m - 1 {
                                } else {
                                    assert(d[a] <= d[b]);
                                }
                            }
                        }
                    } else if 1 >= m - 1 {
                        assert(settled_from(d, m - 2)) by {
                            assert forall|a: int, b: int| m - 2 <= a < b < n implies d[a] <= d[b] by {
                                if a < m - 1 {
                                    assert(d[a] <= d[b]);
                                }
                            }
                        }
                    }
                }
                self.pass = self.pass + 1;
                self.j = 1;
                proof {
                    // a second wrap means a whole pass found nothing
                    if wrapped {
                        assert(clean_between(data@, 1, n as int));
                    }
                    wrapped = true;
                }
            }
        }
        None
    }
}

impl Default for Bubblesort {
    fn default() -> (r: Bubblesort)
        ensures
            r.pass == 0,
            r.j == 1,
    {
        Bubblesort::new()
    }
}

/// Starts bubble sort on `data`.
pub fn sort(data: SortData) -> (r: Sorter)
    ensures
        r.wf(),
        r.initial() == data@,
        r.data() == data@,
        r.log() == Seq::<Swap>::empty(),
        !r.is_done(),
        r.cursor() matches super::Cursor::Bubble(c) && c.is_start(data@),
{
    let c = Bubblesort::new();
    proof {
        let d = data@;
        if d.len() > 0 {
            assert forall|k: int| 0 <= k < 1 implies #[trigger] d[k] <= d[0] by {}
        }
    }
    Sorter::new(data, super::Cursor::Bubble(c))
}

} // verus!
