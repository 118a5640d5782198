use vstd::prelude::*;

verus! {

/// A logical database state. Revisions are totally ordered by their generation.
#[derive(Clone, Copy, Debug, PartialEq, Eq, Structural, Hash, PartialOrd, Ord)]
pub struct Revision {
    pub generation: u64,
}

impl Revision {
    /// The revision every fresh database starts in.
    pub fn start() -> (r: Revision)
        ensures
            r.generation == 0,
    {
        Revision { generation: 0 }
    }

    /// The generation number of this revision.
    pub fn as_u64(&self) -> (r: u64)
        ensures
            r == self.generation,
    {
        self.generation
    }

    /// True when `self` is strictly later than `other`.
    pub fn is_after(&self, other: Revision) -> (r: bool)
        ensures
            r == (self.generation > other.generation),
    {
        self.generation > other.generation
    }
}

/// The revision clock of one database: a counter that only ever moves forward.
pub struct RevisionClock {
    pub(crate) current: Revision,
}

/// One observed step of a clock: it either stayed put (a read) or moved one
/// generation forward (an advance).
pub open spec fn clock_step(before: Revision, after: Revision) -> bool {
    after.generation == before.generation || after.generation == before.generation + 1
}

impl RevisionClock {
    pub closed spec fn now(&self) -> Revision {
        self.current
    }

    /// A clock standing at the start revision.
    pub fn new() -> (c: RevisionClock)
        ensures
            c.now() == Revision::start_spec(),
    {
        RevisionClock { current: Revision::start() }
    }

    /// The present revision; reading it changes nothing.
    pub fn current(&self) -> (r: Revision)
        ensures
            r == self.now(),
    {
        self.current
    }

    /// Moves the clock one generation forward and returns the new revision.
    pub fn advance(&mut self) -> (r: Revision)
        requires
            old(self).now().generation < u64::MAX,
        ensures
            r == final(self).now(),
            r.generation == old(self).now().generation + 1,
            clock_step(old(self).now(), r),
    {
        self.current = Revision { generation: self.current.generation + 1 };
        self.current
    }
}

impl Revision {
    pub open spec fn start_spec() -> Revision {
        Revision { generation: 0 }
    }
}

/// Revisions observed through successive reads and advances of one clock
/// never decrease: any later observation is at least as late as any earlier one.
pub proof fn lemma_observed_revisions_monotone(h: Seq<Revision>, i: int, j: int)
    requires
        forall|k: int| 0 <= k < h.len() - 1 ==> #[trigger] clock_step(h[k], h[k + 1]),
        0 <= i <= j < h.len(),
    ensures
        h[i].generation <= h[j].generation,
    decreases j - i,
{
    if i < j {
        lemma_observed_revisions_monotone(h, i, j - 1);
        let k = j - 1;
        assert(clock_step(h[k], h[k + 1]));
    }
}

} // verus!
