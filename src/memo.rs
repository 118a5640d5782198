use vstd::prelude::*;
use crate::revision::Revision;

verus! {

/// The two revisions a memoized value carries: when its value last changed
/// and when it was last found to be current.
#[derive(Clone, Copy, Debug, PartialEq, Eq, Structural)]
pub struct MemoStamp {
    pub changed_at: Revision,
    pub verified_at: Revision,
}

impl MemoStamp {
    /// A value never changes after the revision it was last verified in.
    pub open spec fn wf(&self) -> bool {
        self.changed_at.generation <= self.verified_at.generation
    }

    /// The memoized value may differ from what it was in revision `since`.
    pub open spec fn changed_after(&self, since: Revision) -> bool {
        self.changed_at.generation > since.generation
    }

    pub open spec fn fresh_spec(now: Revision) -> MemoStamp {
        MemoStamp { changed_at: now, verified_at: now }
    }

    /// A stamp for a value that was just computed (or set) for the first time.
    pub fn fresh(now: Revision) -> (r: MemoStamp)
        ensures
            r == MemoStamp::fresh_spec(now),
            r.changed_at == now,
            r.verified_at == now,
            r.wf(),
    {
        MemoStamp { changed_at: now, verified_at: now }
    }

    /// Answers whether the value may have changed after `since`.
    pub fn maybe_changed_after(&self, since: Revision) -> (r: bool)
        ensures
            r == self.changed_after(since),
    {
        self.changed_at.generation > since.generation
    }

    /// The stamp after every dependency was found unchanged since the last
    /// verification: the value is known to be current at `now` and keeps the
    /// revision it last changed in.
    pub fn confirm(&self, now: Revision) -> (r: MemoStamp)
        requires
            self.wf(),
            self.verified_at.generation <= now.generation,
        ensures
            r.changed_at == self.changed_at,
            r.verified_at == now,
            r.wf(),
    {
        MemoStamp { changed_at: self.changed_at, verified_at: now }
    }
}

/// The stamp of a value recomputed at `now`, given the previous memo (if any).
/// A recomputation that yields the value it replaces keeps the old change
/// revision, so dependents do not see a change.
pub open spec fn settled(previous: Option<(u64, MemoStamp)>, value: u64, now: Revision) -> MemoStamp {
    match previous {
        Some((v, s)) => if v == value {
            MemoStamp { changed_at: s.changed_at, verified_at: now }
        } else {
            MemoStamp { changed_at: now, verified_at: now }
        },
        None => MemoStamp { changed_at: now, verified_at: now },
    }
}

/// Computes the stamp of a value recomputed at `now`.
pub fn settle(previous: Option<(u64, MemoStamp)>, value: u64, now: Revision) -> (r: MemoStamp)
    requires
        previous matches Some((_, s)) ==> s.wf() && s.verified_at.generation <= now.generation,
    ensures
        r == settled(previous, value, now),
        r.wf(),
{
    match previous {
        Some((v, s)) => if v == value {
            MemoStamp { changed_at: s.changed_at, verified_at: now }
        } else {
            MemoStamp::fresh(now)
        },
        None => MemoStamp::fresh(now),
    }
}

/// A memo whose dependencies were all found unchanged answers every
/// "changed after" question as it did before the check.
pub proof fn lemma_confirm_preserves_answers(s: MemoStamp, now: Revision, since: Revision)
    requires
        s.wf(),
        s.verified_at.generation <= now.generation,
    ensures
        (MemoStamp { changed_at: s.changed_at, verified_at: now }).changed_after(since)
            == s.changed_after(since),
{
}

/// A recomputation that reproduces the memoized value is invisible to
/// dependents: one that saw the value unchanged after `since` still does,
/// whatever revision the recomputation ran in.
pub proof fn lemma_equal_recompute_is_firewalled(
    value: u64,
    s: MemoStamp,
    now: Revision,
    since: Revision,
)
    requires
        s.wf(),
        s.verified_at.generation <= now.generation,
        !s.changed_after(since),
    ensures
        !settled(Some((value, s)), value, now).changed_after(since),
        settled(Some((value, s)), value, now).changed_at == s.changed_at,
        settled(Some((value, s)), value, now).verified_at == now,
{
}

/// A recomputation that yields a different value is seen as a change by every
/// dependent that last looked before `now`.
pub proof fn lemma_different_recompute_is_visible(
    old_value: u64,
    value: u64,
    s: MemoStamp,
    now: Revision,
    since: Revision,
)
    requires
        old_value != value,
        since.generation < now.generation,
    ensures
        settled(Some((old_value, s)), value, now).changed_after(since),
{
}

} // verus!
