use vstd::prelude::*;
use crate::database::{CycleError, CycleRecoveryStrategy, Database};
use crate::key::DatabaseKeyIndex;
use crate::revision::Revision;

verus! {

/// A graph edge from a memoized slot to a slot it read while computing.
/// Edges are compared and hashed by the slot they point at, never by the
/// value stored there.
#[derive(Clone, Copy, Debug, PartialEq, Eq, Structural, Hash)]
pub struct Dependency {
    slot: DatabaseKeyIndex,
}

impl Dependency {
    /// The slot this edge points at.
    pub closed spec fn target(&self) -> DatabaseKeyIndex {
        self.slot
    }

    /// An edge to the slot identified by `slot`.
    pub fn new(slot: DatabaseKeyIndex) -> (r: Dependency)
        ensures
            r.target() == slot,
    {
        Dependency { slot }
    }

    /// The identity of the slot this edge points at.
    pub fn raw_slot(&self) -> (r: DatabaseKeyIndex)
        ensures
            r == self.target(),
    {
        self.slot
    }

    /// Asks the slot behind this edge whether its value may have changed
    /// after `revision`, bringing it up to date first.
    pub fn maybe_changed_since(&self, db: &mut Database, revision: Revision) -> (r: Result<
        bool,
        CycleError,
    >)
        requires
            old(db).wf(),
            old(db).valid_key(self.target()),
        ensures
            final(db).wf(),
            final(db).same_shape(*old(db)),
            final(db).same_layout_as(*old(db)),
            r matches Ok(b) ==> b == final(db).stamp_of(self.target()).changed_after(revision),
            old(db).is_input(self.target()) ==> r == Ok::<bool, CycleError>(
                old(db).stamp_of(self.target()).changed_after(revision),
            ),
            forall|rank: Seq<nat>| #[trigger] old(db).stable_since(revision, rank)
                && old(db).key_unchanged_since(revision, self.target()) ==> r == Ok::<bool, CycleError>(false),
            forall|rank: Seq<nat>| #[trigger] old(db).acyclic(rank) ==> r is Ok && final(db).acyclic(rank),
            old(db).ordered() ==> r is Ok && final(db).ordered(),
            old(db).consistent() ==> final(db).consistent(),
            old(db).ordered() && old(db).none_recovered() ==> final(db).none_recovered(),
            final(db).refreshed(*old(db), self.target(), r is Ok),
            r matches Err(e) ==> old(db).valid_key(e.query) && old(db).strategy_of(e.query)
                == CycleRecoveryStrategy::Panic,
    {
        db.maybe_changed_after(self.slot, revision)
    }
}

/// Two edges are equal exactly when they point at the same slot.
pub proof fn lemma_edge_identity(a: DatabaseKeyIndex, b: DatabaseKeyIndex, d1: Dependency, d2: Dependency)
    requires
        d1.target() == a,
        d2.target() == b,
    ensures
        (d1 == d2) <==> (a == b),
{
}

} // verus!
