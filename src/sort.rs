//! The swap record, the buffer under sort, and the step producer that
//! drives one algorithm one significant swap at a time.
use vstd::prelude::*;

pub mod bubblesort;
pub mod combsort;
pub mod icantbelieveitcansort;
pub mod quicksort;
pub mod shellsort;

use bubblesort::Bubblesort;
use combsort::Combsort;
use icantbelieveitcansort::ICantBelieveItCanSort;
use quicksort::Quicksort;
use shellsort::Shellsort;

verus! {

/// An exchange of the elements at two positions.
#[derive(Clone, Copy, Debug, PartialEq, Eq, Structural)]
pub struct Swap(pub usize, pub usize);

impl Swap {
    /// A swap is significant when it exchanges two distinct positions.
    pub fn is_significant(&self) -> (r: bool)
        ensures
            r == (self.0 != self.1),
    {
        self.0 != self.1
    }
}

/// `s` is in non-decreasing order.
pub open spec fn sorted(s: Seq<usize>) -> bool {
    forall|a: int, b: int| 0 <= a < b < s.len() ==> s[a] <= s[b]
}

/// Every adjacent pair of `s` is in order.
pub open spec fn adjacent_sorted(s: Seq<usize>) -> bool {
    forall|k: int| 0 <= k < s.len() - 1 ==> #[trigger] s[k] <= s[k + 1]
}

/// `s` with the elements at positions `i` and `j` exchanged.
pub open spec fn exchanged(s: Seq<usize>, i: int, j: int) -> Seq<usize> {
    s.update(i, s[j]).update(j, s[i])
}

/// Both positions of `w` lie within a buffer of length `n`.
pub open spec fn swap_in_bounds(w: Swap, n: nat) -> bool {
    w.0 < n && w.1 < n
}

/// The buffer that results from applying `swaps`, in order, to `d`.
pub open spec fn replay(d: Seq<usize>, swaps: Seq<Swap>) -> Seq<usize>
    decreases swaps.len(),
{
    if swaps.len() == 0 {
        d
    } else {
        let w = swaps.last();
        exchanged(replay(d, swaps.drop_last()), w.0 as int, w.1 as int)
    }
}

pub proof fn lemma_adjacent_sorted(s: Seq<usize>)
    requires
        adjacent_sorted(s),
    ensures
        sorted(s),
{
    assert forall|a: int, b: int| 0 <= a < b < s.len() implies s[a] <= s[b] by {
        lemma_adjacent_chain(s, a, b);
    }
}

proof fn lemma_adjacent_chain(s: Seq<usize>, a: int, b: int)
    requires
        adjacent_sorted(s),
        0 <= a <= b < s.len(),
    ensures
        s[a] <= s[b],
    decreases b - a,
{
    if a < b {
        lemma_adjacent_chain(s, a, b - 1);
    }
}

/// Replaying one more swap is applying it to the result of the rest.
pub proof fn lemma_replay_push(d: Seq<usize>, swaps: Seq<Swap>, w: Swap)
    ensures
        replay(d, swaps.push(w)) == exchanged(replay(d, swaps), w.0 as int, w.1 as int),
{
    assert(swaps.push(w).drop_last() =~= swaps);
}

/// Exchanging two positions keeps every element, each as often as before.
pub proof fn lemma_exchanged_multiset(s: Seq<usize>, i: int, j: int)
    requires
        0 <= i < s.len(),
        0 <= j < s.len(),
    ensures
        exchanged(s, i, j).to_multiset() == s.to_multiset(),
{
    let s1 = s.update(i, s[j]);
    vstd::seq_lib::to_multiset_update(s, i, s[j]);
    vstd::seq_lib::to_multiset_update(s1, j, s[i]);
    s.to_multiset_ensures();
    assert(s.contains(s[i]));
    assert(s1[j] == s[j]);
    assert(exchanged(s, i, j).to_multiset() =~= s.to_multiset());
}

/// Replaying `a` and then `b` is replaying `a + b`.
pub proof fn lemma_replay_concat(d: Seq<usize>, a: Seq<Swap>, b: Seq<Swap>)
    ensures
        replay(d, a + b) == replay(replay(d, a), b),
    decreases b.len(),
{
    if b.len() == 0 {
        assert(a + b =~= a);
    } else {
        assert((a + b).drop_last() =~= a + b.drop_last());
        lemma_replay_concat(d, a, b.drop_last());
    }
}

/// The buffer under sort.
pub struct SortData {
    data: Vec<usize>,
}

impl View for SortData {
    type V = Seq<usize>;

    closed spec fn view(&self) -> Seq<usize> {
        self.data@
    }
}

impl SortData {
    pub fn new(data: Vec<usize>) -> (r: SortData)
        ensures
            r@ == data@,
    {
        SortData { data }
    }

    /// Whether every adjacent pair is in order.
    pub fn is_sorted(&self) -> (r: bool)
        ensures
            r == sorted(self@),
            r == adjacent_sorted(self@),
    {
        let n = self.data.len();
        let mut k: usize = 0;
        while k + 1 < n
            invariant
                n == self@.len(),
                k < n || (n == 0 && k == 0),
                forall|x: int| 0 <= x < k ==> #[trigger] self@[x] <= self@[x + 1],
            decreases n - k,
        {
            if self.data[k] > self.data[k + 1] {
                assert(!adjacent_sorted(self@)) by {
                    assert(self@[k as int] > self@[k + 1]);
                }
                return false;
            }
            k = k + 1;
        }
        assert(adjacent_sorted(self@));
        proof {
            lemma_adjacent_sorted(self@);
        }
        true
    }

    /// Exchanges the elements at positions `a` and `b`, and returns the
    /// swap that describes it.
    pub fn swap(&mut self, a: usize, b: usize) -> (r: Swap)
        requires
            a < old(self)@.len(),
            b < old(self)@.len(),
        ensures
            r == Swap(a, b),
            final(self)@ == exchanged(old(self)@, a as int, b as int),
    {
        let x = self.data[a];
        let y = self.data[b];
        self.data.set(a, y);
        self.data.set(b, x);
        Swap(a, b)
    }

    pub fn len(&self) -> (r: usize)
        ensures
            r == self@.len(),
    {
        self.data.len()
    }

    /// The element at position `i`.
    pub fn at(&self, i: usize) -> (r: usize)
        requires
            i < self@.len(),
        ensures
            r == self@[i as int],
    {
        self.data[i]
    }

    /// A copy of the elements, in order.
    pub fn to_vec(&self) -> (r: Vec<usize>)
        ensures
            r@ == self@,
    {
        self.data.clone()
    }

    /// Gives the elements back.
    pub fn into_vec(self) -> (r: Vec<usize>)
        ensures
            r@ == self@,
    {
        self.data
    }
}


/// Where a sorting algorithm stands between two observed swaps.
pub enum Cursor {
    Bubble(Bubblesort),
    Comb(Combsort),
    Shell(Shellsort),
    ICantBelieve(ICantBelieveItCanSort),
    Quick(Quicksort),
}

impl Cursor {
    /// What holds of the buffer `d` whenever the algorithm is suspended here.
    pub open spec fn inv(&self, d: Seq<usize>) -> bool {
        match self {
            Cursor::Bubble(c) => c.inv(d),
            Cursor::Comb(c) => c.inv(d),
            Cursor::Shell(c) => c.inv(d),
            Cursor::ICantBelieve(c) => c.inv(d),
            Cursor::Quick(c) => c.inv(d),
        }
    }

    /// What one call of `advance` from here does on the buffer `d`: the
    /// step of the algorithm's own cursor.
    pub open spec fn stepped(&self, d: Seq<usize>, r: Option<Swap>, after: Cursor) -> bool {
        match (self, after) {
            (Cursor::Bubble(c), Cursor::Bubble(a)) => c.stepped(d, r, a),
            (Cursor::Comb(c), Cursor::Comb(a)) => c.stepped(d, r, a),
            (Cursor::Shell(c), Cursor::Shell(a)) => c.stepped(d, r, a),
            (Cursor::ICantBelieve(c), Cursor::ICantBelieve(a)) => c.stepped(d, r, a),
            (Cursor::Quick(c), Cursor::Quick(a)) => c.stepped(d, r, a),
            _ => false,
        }
    }

    /// The cursor is `a`'s, before its first step on the buffer `d`.
    pub open spec fn starts(&self, a: Algorithm, d: Seq<usize>) -> bool {
        match (a, self) {
            (Algorithm::Bubble, Cursor::Bubble(c)) => c.is_start(d),
            (Algorithm::Comb, Cursor::Comb(c)) => c.is_start(d),
            (Algorithm::Shell, Cursor::Shell(c)) => c.is_start(d),
            (Algorithm::ICantBelieve, Cursor::ICantBelieve(c)) => c.is_start(d),
            (Algorithm::Quick, Cursor::Quick(c)) => c.is_start(d),
            _ => false,
        }
    }

    /// Runs the algorithm to its next swap, or to its end.
    fn advance(&mut self, data: &mut SortData) -> (r: Option<Swap>)
        requires
            old(self).inv(old(data)@),
        ensures
            final(self).inv(final(data)@),
            old(self).stepped(old(data)@, r, *final(self)),
            match r {
                Some(w) => {
                    &&& w.0 != w.1
                    &&& swap_in_bounds(w, old(data)@.len())
                    &&& final(data)@ == exchanged(old(data)@, w.0 as int, w.1 as int)
                },
                None => final(data)@ == old(data)@ && sorted(final(data)@),
            },
    {
        match self {
            Cursor::Bubble(c) => c.step(data),
            Cursor::Comb(c) => c.step(data),
            Cursor::Shell(c) => c.step(data),
            Cursor::ICantBelieve(c) => c.step(data),
            Cursor::Quick(c) => c.step(data),
        }
    }
}

/// A sorting algorithm run as a sequence of significant swaps, one per call
/// of `step`.
pub struct Sorter {
    data: SortData,
    cursor: Cursor,
    done: bool,
    initial: Ghost<Seq<usize>>,
    log: Ghost<Seq<Swap>>,
}

impl Sorter {
    /// The buffer as it stands now.
    pub closed spec fn data(&self) -> Seq<usize> {
        self.data@
    }

    /// The buffer as it was handed in.
    pub closed spec fn initial(&self) -> Seq<usize> {
        self.initial@
    }

    /// The swaps handed out so far, in order.
    pub closed spec fn log(&self) -> Seq<Swap> {
        self.log@
    }

    /// Where the algorithm stands.
    pub closed spec fn cursor(&self) -> Cursor {
        self.cursor
    }

    /// Whether the algorithm has finished.
    pub closed spec fn is_done(&self) -> bool {
        self.done
    }

    /// The buffer is what the logged swaps make of the initial one, every
    /// logged swap is significant, and the buffer is in order once finished.
    pub closed spec fn wf(&self) -> bool {
        &&& self.data@.len() == self.initial@.len()
        &&& self.data@ == replay(self.initial@, self.log@)
        &&& self.data@.to_multiset() == self.initial@.to_multiset()
        &&& forall|k: int| 0 <= k < self.log@.len() ==> #[trigger] self.log@[k].0 != self.log@[k].1
        &&& forall|k: int| 0 <= k < self.log@.len() ==> swap_in_bounds(#[trigger] self.log@[k], self.data@.len())
        &&& self.done ==> sorted(self.data@)
        &&& !self.done ==> self.cursor.inv(self.data@)
    }

    /// Starts the algorithm whose cursor is `cursor` on `data`.
    pub fn new(data: SortData, cursor: Cursor) -> (r: Sorter)
        requires
            cursor.inv(data@),
        ensures
            r.wf(),
            r.initial() == data@,
            r.data() == data@,
            r.log() == Seq::<Swap>::empty(),
            !r.is_done(),
            r.cursor() == cursor,
    {
        let ghost d = data@;
        Sorter { data, cursor, done: false, initial: Ghost(d), log: Ghost(Seq::empty()) }
    }

    /// Returns the next significant swap, already applied to the buffer, or
    /// `None` once the algorithm has finished with the buffer in order.
    pub fn step(&mut self) -> (r: Option<Swap>)
        requires
            old(self).wf(),
        ensures
            final(self).wf(),
            final(self).initial() == old(self).initial(),
            final(self).data().len() == final(self).initial().len(),
            // the buffer keeps the elements it was handed, each as often
            final(self).data().to_multiset() == final(self).initial().to_multiset(),
            // the swap is the one the algorithm makes next
            !old(self).is_done() ==> old(self).cursor().stepped(old(self).data(), r, final(self).cursor()),
            match r {
                Some(w) => {
                    &&& !old(self).is_done()
                    &&& !final(self).is_done()
                    &&& w.0 != w.1
                    &&& swap_in_bounds(w, old(self).data().len())
                    &&& final(self).data() == exchanged(old(self).data(), w.0 as int, w.1 as int)
                    &&& final(self).log() == old(self).log().push(w)
                },
                None => {
                    &&& final(self).is_done()
                    &&& final(self).data() == old(self).data()
                    &&& final(self).log() == old(self).log()
                    &&& sorted(final(self).data())
                },
            },
            final(self).data() == replay(final(self).initial(), final(self).log()),
    {
        if self.done {
            return None;
        }
        let r = self.cursor.advance(&mut self.data);
        match r {
            Some(w) => {
                proof {
                    lemma_exchanged_multiset(old(self).data@, w.0 as int, w.1 as int);
                    lemma_replay_push(self.initial@, self.log@, w);
                    self.log@ = self.log@.push(w);
                }
            },
            None => {
                self.done = true;
            },
        }
        r
    }

    /// Whether the algorithm has finished.
    pub fn finished(&self) -> (r: bool)
        ensures
            r == self.is_done(),
    {
        self.done
    }

    /// Hands the buffer back.
    pub fn into_data(self) -> (r: SortData)
        ensures
            r@ == self.data(),
    {
        self.data
    }

    /// The buffer as it stands now.
    pub fn data_ref(&self) -> (r: &SortData)
        ensures
            r@ == self.data(),
    {
        &self.data
    }
}

/// The sorting algorithms that can be played.
#[derive(Clone, Copy, Debug, PartialEq, Eq, Structural)]
pub enum Algorithm {
    Bubble,
    Comb,
    Shell,
    ICantBelieve,
    Quick,
}

/// The display name of each algorithm.
pub open spec fn name_of(a: Algorithm) -> Seq<char> {
    match a {
        Algorithm::Bubble => "Bubble Sort"@,
        Algorithm::Comb => "Comb Sort"@,
        Algorithm::Shell => "Shell Sort"@,
        Algorithm::ICantBelieve => "I Can't Believe It Can Sort"@,
        Algorithm::Quick => "Quick Sort"@,
    }
}

impl Algorithm {
    /// The display name of the algorithm.
    pub fn name(&self) -> (r: &'static str)
        ensures
            r@ == name_of(*self),
    {
        match self {
            Algorithm::Bubble => "Bubble Sort",
            Algorithm::Comb => "Comb Sort",
            Algorithm::Shell => "Shell Sort",
            Algorithm::ICantBelieve => "I Can't Believe It Can Sort",
            Algorithm::Quick => "Quick Sort",
        }
    }

    /// Starts the algorithm on `data`.
    pub fn start(&self, data: SortData) -> (r: Sorter)
        ensures
            r.wf(),
            r.initial() == data@,
            r.data() == data@,
            r.log() == Seq::<Swap>::empty(),
            !r.is_done(),
            r.cursor().starts(*self, data@),
    {
        match self {
            Algorithm::Bubble => bubblesort::sort(data),
            Algorithm::Comb => combsort::sort(data),
            Algorithm::Shell => shellsort::sort(data),
            Algorithm::ICantBelieve => icantbelieveitcansort::sort(data),
            Algorithm::Quick => quicksort::sort(data),
        }
    }
}

/// An entry of the catalog: a display name and the algorithm it starts.
pub struct SortAlgorithm {
    pub name: &'static str,
    pub algorithm: Algorithm,
}

/// The number of entries in the catalog.
pub const ALGORITHM_COUNT: usize = 5;

/// The algorithm at position `index` of the catalog.
pub open spec fn algorithm_at(index: int) -> Algorithm {
    if index == 0 {
        Algorithm::Bubble
    } else if index == 1 {
        Algorithm::Comb
    } else if index == 2 {
        Algorithm::Shell
    } else if index == 3 {
        Algorithm::ICantBelieve
    } else {
        Algorithm::Quick
    }
}

/// The entry at position `index` of the catalog; the order of the catalog
/// is the order in which the algorithms are played.
pub fn algorithm(index: usize) -> (r: SortAlgorithm)
    requires
        index < ALGORITHM_COUNT,
    ensures
        r.algorithm == algorithm_at(index as int),
        r.name@ == name_of(r.algorithm),
{
    let a = if index == 0 {
        Algorithm::Bubble
    } else if index == 1 {
        Algorithm::Comb
    } else if index == 2 {
        Algorithm::Shell
    } else if index == 3 {
        Algorithm::ICantBelieve
    } else {
        Algorithm::Quick
    };
    SortAlgorithm { name: a.name(), algorithm: a }
}

impl SortAlgorithm {
    /// Starts this entry's algorithm on `data`.
    pub fn start(&self, data: SortData) -> (r: Sorter)
        ensures
            r.wf(),
            r.initial() == data@,
            r.data() == data@,
            r.log() == Seq::<Swap>::empty(),
            !r.is_done(),
            r.cursor().starts(self.algorithm, data@),
    {
        self.algorithm.start(data)
    }
}

} // verus!
