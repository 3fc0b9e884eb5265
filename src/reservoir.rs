use vstd::prelude::*;
use rand_pcg::Lcg128Xsl64;
use crate::error::SampleError;
use crate::rng::draw_below;

verus! {

/// What became of an item handed to the sampler.
#[derive(Debug, Clone, Copy, PartialEq, Eq, Structural)]
pub enum Fate {
    /// It filled the next free slot of the reservoir.
    Filled,
    /// It was passed over.
    Skipped,
    /// It took the place of what the given slot held.
    Replaced(usize),
}

/// The decisions of a streaming reservoir sampler (Algorithm L) over a stream
/// of unknown length, in `O(k)` memory.
///
/// The first `k` items fill the reservoir. From then on the driver hands in a
/// skip length `g >= 1` whenever `needs_skip` says so: the next `g - 1` items
/// are passed over and the `g`-th replaces a slot drawn uniformly from `[0, k)`.
/// The skip lengths come from the running weight of Algorithm L, which the
/// driver keeps.
pub struct StreamSampler<T> {
    slots: Vec<T>,
    capacity: usize,
    countdown: usize,
    seen: Ghost<Seq<T>>,
    origins: Ghost<Seq<int>>,
}

impl<T> StreamSampler<T> {
    /// What the reservoir holds, slot by slot.
    pub closed spec fn slots(&self) -> Seq<T> {
        self.slots@
    }

    /// The sample size `k`.
    pub closed spec fn capacity(&self) -> nat {
        self.capacity as nat
    }

    /// The items handed in so far, in stream order.
    pub closed spec fn seen(&self) -> Seq<T> {
        self.seen@
    }

    /// For each slot, the stream position of the item it holds.
    pub closed spec fn origins(&self) -> Seq<int> {
        self.origins@
    }

    /// How many items are left up to and including the next replacement; `0`
    /// when no skip length is pending.
    pub closed spec fn countdown(&self) -> nat {
        self.countdown as nat
    }

    pub open spec fn filling(&self) -> bool {
        self.slots().len() < self.capacity()
    }

    pub open spec fn waiting_for_skip(&self) -> bool {
        self.capacity() > 0 && !self.filling() && self.countdown() == 0
    }

    pub closed spec fn wf(&self) -> bool {
        &&& self.slots@.len() <= self.capacity
        &&& self.slots@.len() == if self.seen@.len() < self.capacity {
            self.seen@.len()
        } else {
            self.capacity as nat
        }
        &&& self.slots@.len() < self.capacity ==> self.slots@ == self.seen@
        &&& self.origins@.len() == self.slots@.len()
        &&& forall|i: int|
            0 <= i < self.slots@.len() ==> 0 <= #[trigger] self.origins@[i] < self.seen@.len()
                && self.slots@[i] == self.seen@[self.origins@[i]]
        &&& forall|i: int, j: int|
            0 <= i < j < self.slots@.len() ==> #[trigger] self.origins@[i] != #[trigger] self.origins@[j]
        &&& self.countdown > 0 ==> self.slots@.len() == self.capacity && self.capacity > 0
    }

    /// An empty sampler that keeps `capacity` items.
    pub fn new(capacity: usize) -> (r: Self)
        ensures
            r.wf(),
            r.capacity() == capacity,
            r.slots() == Seq::<T>::empty(),
            r.seen() == Seq::<T>::empty(),
            r.countdown() == 0,
    {
        StreamSampler {
            slots: Vec::new(),
            capacity,
            countdown: 0,
            seen: Ghost(Seq::empty()),
            origins: Ghost(Seq::empty()),
        }
    }

    /// Whether the reservoir holds its `k` items.
    pub fn is_full(&self) -> (r: bool)
        requires
            self.wf(),
        ensures
            r == !self.filling(),
    {
        self.slots.len() == self.capacity
    }

    /// Whether a skip length must be scheduled before the next item comes.
    pub fn needs_skip(&self) -> (r: bool)
        requires
            self.wf(),
        ensures
            r == self.waiting_for_skip(),
    {
        self.capacity > 0 && self.slots.len() == self.capacity && self.countdown == 0
    }

    /// Schedules the next replacement `skip` items ahead: `skip - 1` items are
    /// passed over, the one after them is taken.
    pub fn schedule_skip(&mut self, skip: usize)
        requires
            old(self).wf(),
            old(self).waiting_for_skip(),
            skip >= 1,
        ensures
            final(self).wf(),
            final(self).slots() == old(self).slots(),
            final(self).seen() == old(self).seen(),
            final(self).capacity() == old(self).capacity(),
            final(self).countdown() == skip,
    {
        self.countdown = skip;
    }

    /// Stores an item of the initial fill in the next free slot.
    pub fn init_fill(&mut self, item: T)
        requires
            old(self).wf(),
            old(self).filling(),
        ensures
            final(self).wf(),
            final(self).slots() == old(self).slots().push(item),
            final(self).seen() == old(self).seen().push(item),
            final(self).capacity() == old(self).capacity(),
            final(self).countdown() == old(self).countdown(),
    {
        let ghost n = self.seen@.len() as int;
        self.slots.push(item);
        self.seen = Ghost(self.seen@.push(item));
        self.origins = Ghost(self.origins@.push(n));
    }

    /// Hands the next item of the stream to the sampler, which decides its
    /// fate: while filling it is stored; then it is passed over, or, when the
    /// scheduled skip ends on it, it replaces a uniformly drawn slot. A draw is
    /// made for a replacement only.
    pub fn offer(&mut self, item: T, rng: &mut Lcg128Xsl64) -> (r: Fate)
        requires
            old(self).wf(),
            !old(self).waiting_for_skip(),
        ensures
            final(self).wf(),
            final(self).seen() == old(self).seen().push(item),
            final(self).capacity() == old(self).capacity(),
            old(self).filling() ==> r == Fate::Filled && final(self).slots() == old(self).slots().push(
                item,
            ) && final(self).countdown() == 0 && *final(rng) == *old(rng),
            !old(self).filling() && old(self).countdown() != 1 ==> r == Fate::Skipped
                && final(self).slots() == old(self).slots() && *final(rng) == *old(rng)
                && final(self).countdown() == (if old(self).countdown() == 0 {
                0
            } else {
                old(self).countdown() - 1
            }),
            !old(self).filling() && old(self).countdown() == 1 ==> (r matches Fate::Replaced(j) && j
                < old(self).capacity() && final(self).slots() == old(self).slots().update(j as int, item))
                && final(self).countdown() == 0,
    {
        if self.slots.len() < self.capacity {
            self.init_fill(item);
            return Fate::Filled;
        }
        if self.countdown != 1 {
            if self.countdown > 0 {
                self.countdown = self.countdown - 1;
            }
            self.seen = Ghost(self.seen@.push(item));
            return Fate::Skipped;
        }
        let j = draw_below(rng, self.capacity);
        let ghost n = self.seen@.len() as int;
        self.slots.set(j, item);
        self.seen = Ghost(self.seen@.push(item));
        self.origins = Ghost(self.origins@.update(j as int, n));
        self.countdown = 0;
        Fate::Replaced(j)
    }

    /// Ends the run. The sample is the reservoir, `k` items each of which came
    /// from the stream; a stream shorter than `k` aborts the run instead.
    pub fn finish(self) -> (r: Result<Vec<T>, SampleError>)
        requires
            self.wf(),
        ensures
            r is Ok <==> self.seen().len() >= self.capacity(),
            r is Err ==> r == Err::<Vec<T>, SampleError>(SampleError::PopulationExhaustedDuringStreaming),
            r matches Ok(v) ==> v@ == self.slots() && v@.len() == self.capacity() && drawn_from(
                v@,
                self.seen(),
            ),
    {
        proof {
            assert(origin_map(self.origins@, self.slots@, self.seen@));
        }
        if self.slots.len() == self.capacity {
            Ok(self.slots)
        } else {
            Err(SampleError::PopulationExhaustedDuringStreaming)
        }
    }
}

/// `pos` gives, for each item of `sample`, a position of `stream` that holds
/// it, no position twice.
pub open spec fn origin_map<T>(pos: Seq<int>, sample: Seq<T>, stream: Seq<T>) -> bool {
    &&& pos.len() == sample.len()
    &&& forall|i: int|
        0 <= i < sample.len() ==> 0 <= #[trigger] pos[i] < stream.len() && sample[i] == stream[pos[i]]
    &&& forall|i: int, j: int| 0 <= i < j < sample.len() ==> #[trigger] pos[i] != #[trigger] pos[j]
}

/// The items of `sample` come from distinct positions of `stream`: nothing is
/// made up, and no item of the stream is kept twice.
pub open spec fn drawn_from<T>(sample: Seq<T>, stream: Seq<T>) -> bool {
    exists|pos: Seq<int>| #[trigger] origin_map(pos, sample, stream)
}

/// At every point of a run the reservoir holds items of the stream, taken
/// from distinct stream positions, and exactly `k` of them once `k` items have
/// come. Before that it holds the stream itself and is still filling, with no
/// skip length pending, so every `offer` so far took the filling branch, which
/// makes no draw; `finish` then aborts the run.
pub proof fn lemma_reservoir_from_stream<T>(s: StreamSampler<T>)
    requires
        s.wf(),
    ensures
        drawn_from(s.slots(), s.seen()),
        s.seen().len() >= s.capacity() ==> s.slots().len() == s.capacity(),
        s.seen().len() < s.capacity() ==> s.slots() == s.seen() && s.filling()
            && !s.waiting_for_skip() && s.countdown() == 0,
{
    assert(origin_map(s.origins(), s.slots(), s.seen()));
}

/// A sampler of size `0` is never filling and never waits for a skip length,
/// so each `offer` passes its item over without a draw, and `finish` returns
/// the empty sample.
pub proof fn lemma_empty_sample_draws_nothing<T>(s: StreamSampler<T>)
    requires
        s.wf(),
        s.capacity() == 0,
    ensures
        !s.filling(),
        !s.waiting_for_skip(),
        s.countdown() == 0,
        s.slots().len() == 0,
{
}

} // verus!
