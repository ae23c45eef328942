//! The playback controller: forever cycles through the catalog of sorting
//! algorithms, each on a freshly shuffled input, and hands out one event
//! per call for a renderer to act on.
use vstd::prelude::*;

use crate::sort::{algorithm, algorithm_at, name_of, sorted, SortData, Sorter, Swap, ALGORITHM_COUNT};

verus! {

/// The pause before a reset and before the first swap, in milliseconds.
pub const INTERMISSION_MS: u64 = 2000;

/// The pause after each swap, in milliseconds.
pub const STEP_MS: u64 = 80;

/// What the renderer is asked to do next.
pub enum PlaybackEvent {
    /// Wait this many milliseconds before asking again.
    Wait(u64),
    /// Show `data` as the new input of the algorithm named `algorithm`.
    Reset { data: Vec<usize>, algorithm: &'static str },
    /// Exchange two positions.
    Swap(Swap),
}

/// Where the controller stands in its cycle.
#[derive(Clone, Copy, Debug, PartialEq, Eq, Structural)]
pub enum Phase {
    /// About to announce the coming reset with an intermission.
    Start,
    /// About to reset to freshly shuffled data.
    Reset,
    /// About to pause before the first swap.
    Intermission,
    /// About to hand out the next swap, or to move on to the next algorithm.
    Sorting,
    /// About to pause after a swap.
    StepWait,
}

/// The numbers `0..n` in order.
pub open spec fn identity(n: nat) -> Seq<usize> {
    Seq::new(n, |i: int| i as usize)
}

/// `s` holds each of the numbers `0..n` exactly once.
pub open spec fn is_permutation(s: Seq<usize>, n: nat) -> bool {
    s.to_multiset() == identity(n).to_multiset()
}

/// An input in order that holds each of the numbers `0..n` exactly once is
/// `0..n` itself: so a sorter drained on a reset's data ends with `0..n`.
pub proof fn lemma_sorted_permutation_is_identity(s: Seq<usize>, n: nat)
    requires
        sorted(s),
        is_permutation(s, n),
        n <= usize::MAX,
    ensures
        s == identity(n),
{
    let id = identity(n);
    s.to_multiset_ensures();
    id.to_multiset_ensures();
    assert(s.len() == n);
    assert forall|i: int, j: int| 0 <= i < n && 0 <= j < n && i != j implies id[i] != id[j] by {
        assert(id[i] == i && id[j] == j);
    }
    assert(id.no_duplicates());
    id.lemma_multiset_has_no_duplicates();
    s.lemma_multiset_has_no_duplicates_conv();
    assert forall|k: int| 0 <= k < n implies #[trigger] s[k] < n by {
        assert(s.contains(s[k]));
        assert(s.to_multiset().count(s[k]) > 0);
        assert(id.to_multiset().count(s[k]) > 0);
        assert(id.contains(s[k]));
        let m = choose|m: int| 0 <= m < n && id[m] == s[k];
        assert(id[m] == m);
    }
    assert forall|a: int, b: int| 0 <= a < b < n implies #[trigger] s[a] < #[trigger] s[b] by {
        assert(s[a] <= s[b]);
        assert(s[a] != s[b]);
    }
    assert forall|k: int| 0 <= k < n implies #[trigger] s[k] == k by {
        lemma_rising_from_below(s, n, k);
        lemma_rising_from_above(s, n, k);
    }
    assert(s =~= id);
}

proof fn lemma_rising_from_below(s: Seq<usize>, n: nat, k: int)
    requires
        s.len() == n,
        0 <= k < n,
        forall|a: int, b: int| 0 <= a < b < n ==> #[trigger] s[a] < #[trigger] s[b],
    ensures
        s[k] >= k,
    decreases k,
{
    if k > 0 {
        lemma_rising_from_below(s, n, k - 1);
        assert(s[k - 1] < s[k]);
    }
}

proof fn lemma_rising_from_above(s: Seq<usize>, n: nat, k: int)
    requires
        s.len() == n,
        0 <= k < n,
        forall|a: int, b: int| 0 <= a < b < n ==> #[trigger] s[a] < #[trigger] s[b],
        forall|a: int| 0 <= a < n ==> #[trigger] s[a] < n,
    ensures
        s[k] <= k,
    decreases n - k,
{
    if k + 1 < n {
        lemma_rising_from_above(s, n, k + 1);
        assert(s[k] < s[k + 1]);
    }
}

/// rand's handle on the thread-local random number generator.
#[verifier::external_type_specification]
#[verifier::external_body]
pub struct ExThreadRng(rand::rngs::ThreadRng);

/// rand's `thread_rng`: a handle on the thread-local generator, seeded by
/// the system on first use (it panics only when the system cannot seed
/// it). Nothing is promised of what it will draw.
pub assume_specification[ rand::thread_rng ]() -> rand::rngs::ThreadRng;

/// Relies on rand's `SliceRandom::shuffle`: it reorders the slice in place
/// by exchanging elements, so the same elements stay, each as often as
/// before.
#[verifier::external_body]
fn shuffle(v: &mut Vec<usize>, rng: &mut rand::rngs::ThreadRng)
    ensures
        final(v)@.to_multiset() == old(v)@.to_multiset(),
        final(v)@.len() == old(v)@.len(),
{
    rand::seq::SliceRandom::shuffle(v.as_mut_slice(), rng)
}

/// The numbers `0..n` in a random order.
pub fn shuffled_range(n: usize) -> (r: Vec<usize>)
    ensures
        r@.len() == n,
        is_permutation(r@, n as nat),
{
    let mut v: Vec<usize> = Vec::new();
    let mut i: usize = 0;
    while i < n
        invariant
            i <= n,
            v@ == identity(i as nat),
        decreases n - i,
    {
        v.push(i);
        i = i + 1;
        assert(v@ =~= identity(i as nat));
    }
    let mut rng = rand::thread_rng();
    shuffle(&mut v, &mut rng);
    v
}

proof fn lemma_next_index(d: nat, k: int)
    requires
        k == d % 5,
    ensures
        (d + 1) % 5 == (k + 1) % 5,
        (d + 1) % 5 == if k + 1 < 5 { k + 1 } else { 0 },
{
    assert((d + 1) % 5 == (k + 1) % 5) by (nonlinear_arith)
        requires
            k == d % 5,
    ;
}

/// The controller of the playback cycle.
pub struct Controller {
    data_count: usize,
    index: usize,
    phase: Phase,
    sorter: Option<Sorter>,
    drained: Ghost<nat>,
}

impl Controller {
    /// The number of elements of every input.
    pub closed spec fn data_count(&self) -> nat {
        self.data_count as nat
    }

    /// The catalog position of the algorithm being played.
    pub closed spec fn index(&self) -> int {
        self.index as int
    }

    pub closed spec fn phase(&self) -> Phase {
        self.phase
    }

    /// The step producer of the algorithm being played, once started.
    pub closed spec fn sorter(&self) -> Option<Sorter> {
        self.sorter
    }

    /// How many algorithms have been played to completion.
    pub closed spec fn drained(&self) -> nat {
        self.drained@
    }

    pub closed spec fn wf(&self) -> bool {
        &&& self.index < ALGORITHM_COUNT
        &&& self.index == self.drained@ % (ALGORITHM_COUNT as nat)
        &&& (self.phase == Phase::Intermission || self.phase == Phase::Sorting || self.phase == Phase::StepWait) ==> {
            &&& self.sorter is Some
            &&& self.sorter.unwrap().wf()
            &&& !self.sorter.unwrap().is_done()
        }
    }

    /// A controller for inputs of `data_count` elements, before the first
    /// algorithm of the catalog.
    pub fn new(data_count: usize) -> (r: Controller)
        ensures
            r.wf(),
            r.data_count() == data_count,
            r.index() == 0,
            r.drained() == 0,
            r.phase() == Phase::Start,
    {
        Controller { data_count, index: 0, phase: Phase::Start, sorter: None, drained: Ghost(0) }
    }

    /// Whether the next event is a reset, which takes freshly shuffled data.
    pub fn wants_data(&self) -> (r: bool)
        ensures
            r == (self.phase() == Phase::Reset),
    {
        self.phase == Phase::Reset
    }

    /// One call that hands out `r` takes the controller from here to
    /// `after`, given `shuffled` as the data of a reset.
    pub open spec fn advanced(&self, after: Controller, r: PlaybackEvent, shuffled: Seq<usize>) -> bool {
        &&& (self.phase() == Phase::Start ==> {
            &&& r == PlaybackEvent::Wait(INTERMISSION_MS)
            &&& after.phase() == Phase::Reset
            &&& after.index() == self.index()
            &&& after.drained() == self.drained()
        })
        &&& (self.phase() == Phase::Reset ==> {
            &&& r matches PlaybackEvent::Reset { data, algorithm }
                && data@ == shuffled
                && algorithm@ == name_of(algorithm_at(self.index()))
            &&& after.phase() == Phase::Intermission
            &&& after.index() == self.index()
            &&& after.drained() == self.drained()
            &&& after.sorter() matches Some(s)
                && s.initial() == shuffled
                && s.data() == shuffled
                && s.log().len() == 0
                && !s.is_done()
                && s.cursor().starts(algorithm_at(self.index()), shuffled)
        })
        &&& (self.phase() == Phase::Intermission ==> {
            &&& r == PlaybackEvent::Wait(INTERMISSION_MS)
            &&& after.phase() == Phase::Sorting
            &&& after.index() == self.index()
            &&& after.drained() == self.drained()
            &&& after.sorter() == self.sorter()
        })
        &&& (self.phase() == Phase::StepWait ==> {
            &&& r == PlaybackEvent::Wait(STEP_MS)
            &&& after.phase() == Phase::Sorting
            &&& after.index() == self.index()
            &&& after.drained() == self.drained()
            &&& after.sorter() == self.sorter()
        })
        &&& (self.phase() == Phase::Sorting ==> match r {
            PlaybackEvent::Swap(w) => {
                &&& after.phase() == Phase::StepWait
                &&& after.index() == self.index()
                &&& after.drained() == self.drained()
                &&& after.sorter() matches Some(s)
                    && w.0 != w.1
                    && self.sorter().unwrap().cursor().stepped(
                        self.sorter().unwrap().data(),
                        Some(w),
                        s.cursor(),
                    )
                    && s.initial() == self.sorter().unwrap().initial()
                    && s.log() == self.sorter().unwrap().log().push(w)
                    && s.data() == crate::sort::exchanged(
                        self.sorter().unwrap().data(),
                        w.0 as int,
                        w.1 as int,
                    )
            },
            PlaybackEvent::Wait(ms) => {
                &&& ms == INTERMISSION_MS
                &&& after.phase() == Phase::Reset
                &&& after.drained() == self.drained() + 1
                &&& after.index() == (self.index() + 1) % (ALGORITHM_COUNT as int)
                &&& sorted(self.sorter().unwrap().data())
                &&& after.sorter() matches Some(s)
                    && self.sorter().unwrap().cursor().stepped(
                        self.sorter().unwrap().data(),
                        None,
                        s.cursor(),
                    )
            },
            PlaybackEvent::Reset { .. } => false,
        })
    }

    /// Hands out the next event; `shuffled` is the data of a reset, and is
    /// used only when the next event is one.
    pub fn next_with(&mut self, shuffled: Vec<usize>) -> (r: PlaybackEvent)
        requires
            old(self).wf(),
        ensures
            final(self).wf(),
            final(self).data_count() == old(self).data_count(),
            old(self).advanced(*final(self), r, shuffled@),
            final(self).index() == final(self).drained() % (ALGORITHM_COUNT as nat),
    {
        match self.phase {
            Phase::Start => {
                self.phase = Phase::Reset;
                PlaybackEvent::Wait(INTERMISSION_MS)
            },
            Phase::Reset => {
                let entry = algorithm(self.index);
                let data = shuffled.clone();
                let sorter = entry.start(SortData::new(shuffled));
                self.sorter = Some(sorter);
                self.phase = Phase::Intermission;
                PlaybackEvent::Reset { data, algorithm: entry.name }
            },
            Phase::Intermission => {
                self.phase = Phase::Sorting;
                PlaybackEvent::Wait(INTERMISSION_MS)
            },
            Phase::StepWait => {
                self.phase = Phase::Sorting;
                PlaybackEvent::Wait(STEP_MS)
            },
            Phase::Sorting => {
                let mut sorter = self.sorter.take().unwrap();
                match sorter.step() {
                    Some(w) => {
                        self.sorter = Some(sorter);
                        self.phase = Phase::StepWait;
                        PlaybackEvent::Swap(w)
                    },
                    None => {
                        self.sorter = Some(sorter);
                        let ghost d = self.drained@;
                        let ghost k = self.index as int;
                        self.index = if self.index + 1 < ALGORITHM_COUNT { self.index + 1 } else { 0 };
                        proof {
                            lemma_next_index(d, k);
                            self.drained@ = d + 1;
                        }
                        self.phase = Phase::Reset;
                        PlaybackEvent::Wait(INTERMISSION_MS)
                    },
                }
            },
        }
    }

    /// Hands out the next event, shuffling fresh data for a reset.
    pub fn next(&mut self) -> (r: PlaybackEvent)
        requires
            old(self).wf(),
        ensures
            final(self).wf(),
            final(self).data_count() == old(self).data_count(),
            old(self).phase() == Phase::Reset ==> (r matches PlaybackEvent::Reset { data, algorithm }
                && data@.len() == old(self).data_count()
                && is_permutation(data@, old(self).data_count())
                && old(self).advanced(*final(self), r, data@)),
            old(self).phase() != Phase::Reset ==> old(self).advanced(*final(self), r, Seq::empty()),
            final(self).index() == final(self).drained() % (ALGORITHM_COUNT as nat),
    {
        let shuffled = if self.wants_data() {
            shuffled_range(self.data_count)
        } else {
            Vec::new()
        };
        self.next_with(shuffled)
    }
}

} // verus!
