use vstd::prelude::*;
use crate::compose::GroupPlan;
use crate::dependency::Dependency;
use crate::key::DatabaseKeyIndex;
use crate::memo::{settle, settled, MemoStamp};
use crate::revision::{Revision, RevisionClock};

verus! {

/// What a query does when its computation reads itself, directly or through
/// other queries.
#[derive(Clone, Copy, Debug, PartialEq, Eq, Structural, Hash)]
pub enum CycleRecoveryStrategy {
    /// The read fails with a cycle error.
    Panic,
    /// Every participant takes its declared fallback value.
    Fallback,
}

/// A read ran into a cycle that some participant cannot recover from.
#[derive(Clone, Copy, Debug, PartialEq, Eq, Structural)]
pub struct CycleError {
    pub query: DatabaseKeyIndex,
}

/// How a slot obtains its value.
pub enum Recipe {
    /// Set from outside.
    Input,
    /// `factor` times the sum of the sources' values (both wrapping), with
    /// `fallback` standing in when the computation is caught in a cycle.
    Derived { sources: Vec<DatabaseKeyIndex>, factor: u64, fallback: u64 },
}

/// The memoized state of one query invocation.
pub struct Slot {
    pub(crate) key: DatabaseKeyIndex,
    pub(crate) value: u64,
    pub(crate) computed: bool,
    pub(crate) recovered: bool,
    pub(crate) stamp: MemoStamp,
    pub(crate) deps: Vec<Dependency>,
}

/// The storage of one query: its name, cycle policy and the slots of its
/// invocations, in key order.
pub struct QueryStorage {
    pub(crate) name: String,
    pub(crate) strategy: CycleRecoveryStrategy,
    pub(crate) slots: Vec<usize>,
}

/// The storage of one query group, which knows its own index.
pub struct GroupStorage {
    pub(crate) group_index: u16,
    pub(crate) name: String,
    pub(crate) queries: Vec<QueryStorage>,
}

/// A name that identifies one query invocation for diagnostics.
pub struct QueryLabel {
    pub group: String,
    pub query: String,
    pub key_index: u32,
}

pub(crate) enum FetchError {
    Cycle { head: usize },
    Unrecovered { query: DatabaseKeyIndex },
}

/// The ids on a computation stack: distinct slot positions below `n`.
pub open spec fn distinct_below(s: Seq<usize>, n: nat) -> bool {
    s.no_duplicates() && forall|i: int| 0 <= i < s.len() ==> (#[trigger] s[i]) < n
}

proof fn lemma_distinct_below_len(s: Seq<usize>, n: nat)
    requires
        distinct_below(s, n),
    ensures
        s.len() <= n,
{
    let t = s.map_values(|x: usize| x as int);
    assert(t.no_duplicates()) by {
        assert forall|i: int, j: int| 0 <= i < t.len() && 0 <= j < t.len() && i != j implies t[i]
            != t[j] by {
            assert(s[i] != s[j]);
        }
    }
    t.unique_seq_to_set();
    vstd::set_lib::lemma_int_range(0, n as int);
    assert(t.to_set().subset_of(vstd::set_lib::set_int_range(0, n as int))) by {
        assert forall|x: int| t.to_set().contains(x) implies vstd::set_lib::set_int_range(
            0,
            n as int,
        ).contains(x) by {
            let i = choose|i: int| 0 <= i < t.len() && t[i] == x;
            assert(s[i] < n);
        }
    }
    vstd::set_lib::lemma_len_subset(t.to_set(), vstd::set_lib::set_int_range(0, n as int));
}

/// All the query groups of one database with their slots, and its revision
/// clock. Groups are numbered in the order they were added.
pub struct Database {
    pub(crate) clock: RevisionClock,
    pub(crate) groups: Vec<GroupStorage>,
    pub(crate) slots: Vec<Slot>,
    pub(crate) recipes: Vec<Recipe>,
}

fn contains_id(s: &Vec<usize>, id: usize) -> (r: bool)
    ensures
        r == s@.contains(id),
{
    let mut i: usize = 0;
    while i < s.len()
        invariant
            i <= s.len(),
            forall|j: int| 0 <= j < i ==> s@[j] != id,
        decreases s.len() - i,
    {
        if s[i] == id {
            return true;
        }
        i = i + 1;
    }
    false
}

impl Database {
    pub closed spec fn now(&self) -> Revision {
        self.clock.now()
    }

    pub closed spec fn slot_count(&self) -> nat {
        self.slots.len() as nat
    }

    pub closed spec fn group_count(&self) -> nat {
        self.groups.len() as nat
    }

    pub closed spec fn query_count(&self, g: int) -> nat {
        self.groups[g].queries.len() as nat
    }

    pub closed spec fn key_count(&self, g: int, q: int) -> nat {
        self.groups[g].queries[q].slots.len() as nat
    }

    /// `k` names a slot of this database.
    pub closed spec fn valid_key(&self, k: DatabaseKeyIndex) -> bool {
        &&& k.group_index < self.groups.len()
        &&& k.query_index < self.groups[k.group_index as int].queries.len()
        &&& k.key_index < self.groups[k.group_index as int].queries[k.query_index as int].slots.len()
    }

    /// Where the storage of `k`'s group keeps its slot.
    pub closed spec fn resolve(&self, k: DatabaseKeyIndex) -> int {
        self.groups[k.group_index as int].queries[k.query_index as int].slots[k.key_index as int] as int
    }

    pub closed spec fn stamp_of(&self, k: DatabaseKeyIndex) -> MemoStamp {
        self.slots[self.resolve(k)].stamp
    }

    pub closed spec fn value_of(&self, k: DatabaseKeyIndex) -> u64 {
        self.slots[self.resolve(k)].value
    }

    pub closed spec fn is_input(&self, k: DatabaseKeyIndex) -> bool {
        self.recipes[self.resolve(k)] is Input
    }

    /// The query storage that every operation on `k` is routed to.
    pub closed spec fn storage_of(&self, k: DatabaseKeyIndex) -> QueryStorage {
        self.groups[k.group_index as int].queries[k.query_index as int]
    }

    pub closed spec fn strategy_of(&self, k: DatabaseKeyIndex) -> CycleRecoveryStrategy {
        self.storage_of(k).strategy
    }

    pub closed spec fn query_name_of(&self, k: DatabaseKeyIndex) -> Seq<char> {
        self.storage_of(k).name@
    }

    pub closed spec fn group_name_of(&self, g: int) -> Seq<char> {
        self.groups[g].name@
    }

    /// The storage of group `g`.
    pub closed spec fn group(&self, g: int) -> GroupStorage {
        self.groups[g]
    }

    closed spec fn wf_groups(&self) -> bool {
        &&& self.groups.len() <= 0x10000
        &&& forall|g: int| 0 <= g < self.groups.len() ==> (#[trigger] self.groups[g]).group_index == g
        &&& forall|g: int| 0 <= g < self.groups.len() ==> (#[trigger] self.groups[g]).queries.len() <= 0x10000
        &&& forall|g: int, q: int| 0 <= g < self.groups.len() && 0 <= q < self.groups[g].queries.len()
            ==> (#[trigger] self.groups[g].queries[q]).slots.len() <= 0x1_0000_0000
    }

    closed spec fn wf_index(&self) -> bool {
        &&& forall|k: DatabaseKeyIndex| #[trigger] self.valid_key(k) ==> 0 <= self.resolve(k) < self.slots.len()
            && self.slots[self.resolve(k)].key == k
        &&& forall|i: int| 0 <= i < self.slots.len() ==> self.valid_key(#[trigger] self.slots[i].key)
            && self.resolve(self.slots[i].key) == i
    }

    closed spec fn wf_slot(&self, i: int) -> bool {
        let s = self.slots[i];
        &&& s.stamp.wf()
        &&& s.stamp.verified_at.generation <= self.clock.now().generation
        &&& forall|j: int| 0 <= j < s.deps.len() ==> self.valid_key(#[trigger] s.deps[j].target())
        &&& self.recipes[i] matches Recipe::Derived { sources, .. } ==> forall|j: int|
            0 <= j < sources.len() ==> self.valid_key(#[trigger] sources[j])
        &&& s.recovered ==> self.recipes[i] is Derived && s.value == self.recipes[i]->fallback
    }

    /// The database's internal invariant.
    pub closed spec fn wf(&self) -> bool {
        &&& self.slots.len() == self.recipes.len()
        &&& self.wf_groups()
        &&& self.wf_index()
        &&& forall|i: int| 0 <= i < self.slots.len() ==> #[trigger] self.wf_slot(i)
    }

    /// `new` has the groups, queries, slot layout and clock of `old`; only
    /// memoized values and their stamps may differ.
    pub closed spec fn same_shape(&self, old: Database) -> bool {
        &&& self.groups == old.groups
        &&& self.recipes == old.recipes
        &&& self.clock == old.clock
        &&& self.slots.len() == old.slots.len()
        &&& forall|i: int| 0 <= i < self.slots.len() ==> (#[trigger] self.slots[i]).key == old.slots[i].key
        &&& forall|i: int| 0 <= i < self.slots.len() && old.recipes[i] is Input ==> (#[trigger] self.slots[i]) == old.slots[i]
    }

    /// An empty database at the start revision.
    pub fn new() -> (db: Database)
        ensures
            db.wf(),
            db.ordered(),
            db.consistent(),
            db.none_recovered(),
            db.slot_count() == 0,
            db.group_count() == 0,
            db.now() == Revision::start_spec(),
    {
        Database {
            clock: RevisionClock::new(),
            groups: Vec::new(),
            slots: Vec::new(),
            recipes: Vec::new(),
        }
    }

    /// The present revision.
    pub fn current_revision(&self) -> (r: Revision)
        ensures
            r == self.now(),
    {
        self.clock.current()
    }

    /// Adds a query group; it gets the next group index, in order of addition.
    /// Fails only when every `u16` index is taken.
    pub fn add_group(&mut self, name: String) -> (r: Option<u16>)
        requires
            old(self).wf(),
        ensures
            final(self).wf(),
            old(self).group_count() < 0x10000 ==> r == Some(old(self).group_count() as u16),
            old(self).group_count() >= 0x10000 ==> r is None && *final(self) == *old(self),
            r is Some ==> final(self).group_count() == old(self).group_count() + 1
                && final(self).group_name_of(old(self).group_count() as int) == name@
                && final(self).query_count(old(self).group_count() as int) == 0
                && forall|g: int| 0 <= g < old(self).group_count() ==> final(self).group(g) == old(self).group(g),
            final(self).now() == old(self).now(),
            final(self).slot_count() == old(self).slot_count(),
            forall|g: int| 0 <= g < old(self).group_count() ==> #[trigger] final(self).query_count(g) == old(self).query_count(g),
            old(self).ordered() ==> final(self).ordered(),
            final(self).keeps_slots_of(*old(self)),
            old(self).consistent() ==> final(self).consistent(),
            old(self).none_recovered() ==> final(self).none_recovered(),
    {
        if self.groups.len() >= 0x10000 {
            return None;
        }
        let index = self.groups.len() as u16;
        let ghost pre = *self;
        self.groups.push(GroupStorage { group_index: index, name, queries: Vec::new() });
        assert forall|k: DatabaseKeyIndex| #[trigger] self.valid_key(k) implies pre.valid_key(k) by {
            if k.group_index as int == index as int {
                assert(self.groups[index as int].queries.len() == 0);
            }
        }
        assert forall|k: DatabaseKeyIndex| #[trigger] pre.valid_key(k) implies self.valid_key(k) && self.resolve(k) == pre.resolve(k) by {
            assert(self.groups[k.group_index as int] == pre.groups[k.group_index as int]);
        }
        assert(self.wf_index());
        assert forall|i: int| 0 <= i < self.slots.len() implies #[trigger] self.wf_slot(i) by {
            assert(pre.wf_slot(i));
        }
        proof {
            if pre.ordered() {
                Self::lemma_same_slots_keep_acyclic(pre, *self, Seq::new(pre.slots.len() as nat, |i: int| i as nat));
            }
            if pre.consistent() {
                Self::lemma_growth_keeps_consistent(pre, *self);
            }
        }
        Some(index)
    }

    /// Adds a query to group `group`; it gets the next query index of that group.
    pub fn add_query(&mut self, group: u16, name: String, strategy: CycleRecoveryStrategy) -> (r: Option<u16>)
        requires
            old(self).wf(),
            group < old(self).group_count(),
        ensures
            final(self).wf(),
            old(self).query_count(group as int) < 0x10000 ==> r == Some(old(self).query_count(group as int) as u16),
            old(self).query_count(group as int) >= 0x10000 ==> r is None && *final(self) == *old(self),
            r is Some ==> final(self).group_count() == old(self).group_count()
                && final(self).query_count(group as int) == old(self).query_count(group as int) + 1
                && final(self).key_count(group as int, old(self).query_count(group as int) as int) == 0,
            final(self).now() == old(self).now(),
            final(self).slot_count() == old(self).slot_count(),
            final(self).group_count() == old(self).group_count(),
            forall|g: int| 0 <= g < old(self).group_count() && g != group ==> #[trigger] final(self).query_count(g) == old(self).query_count(g),
            forall|q: int| 0 <= q < old(self).query_count(group as int) ==> #[trigger] final(self).key_count(group as int, q) == old(self).key_count(group as int, q),
            old(self).ordered() ==> final(self).ordered(),
            final(self).keeps_slots_of(*old(self)),
            old(self).consistent() ==> final(self).consistent(),
            old(self).none_recovered() ==> final(self).none_recovered(),
    {
        if self.groups[group as usize].queries.len() >= 0x10000 {
            return None;
        }
        let ghost pre = *self;
        let index = self.groups[group as usize].queries.len() as u16;
        let mut g = self.groups.remove(group as usize);
        g.queries.push(QueryStorage { name, strategy, slots: Vec::new() });
        self.groups.insert(group as usize, g);
        assert(self.groups@ == pre.groups@.update(group as int, g));
        assert forall|k: DatabaseKeyIndex| #[trigger] self.valid_key(k) implies pre.valid_key(k) || (k.group_index == group && k.query_index == index) by {
        }
        assert forall|k: DatabaseKeyIndex| #[trigger] pre.valid_key(k) implies self.valid_key(k) && self.resolve(k) == pre.resolve(k) by {
            if k.group_index == group {
                assert(self.groups[group as int].queries[k.query_index as int] == pre.groups[group as int].queries[k.query_index as int]);
            }
        }
        assert forall|k: DatabaseKeyIndex| #[trigger] self.valid_key(k) implies 0 <= self.resolve(k) < self.slots.len()
            && self.slots[self.resolve(k)].key == k by {
            assert(pre.valid_key(k));
        }
        assert forall|gg: int, q: int| 0 <= gg < self.groups.len() && 0 <= q < self.groups[gg].queries.len()
            implies (#[trigger] self.groups[gg].queries[q]).slots.len() <= 0x1_0000_0000 by {
            if gg != group as int || q != index as int {
                assert(self.groups[gg].queries[q] == pre.groups[gg].queries[q]);
            }
        }
        assert forall|i: int| 0 <= i < self.slots.len() implies #[trigger] self.wf_slot(i) by {
            assert(pre.wf_slot(i));
        }
        proof {
            if pre.ordered() {
                Self::lemma_same_slots_keep_acyclic(pre, *self, Seq::new(pre.slots.len() as nat, |i: int| i as nat));
            }
            if pre.consistent() {
                Self::lemma_growth_keeps_consistent(pre, *self);
            }
        }
        Some(index)
    }
}


/// Why a slot could not be updated.
#[derive(Clone, Copy, Debug, PartialEq, Eq, Structural)]
pub enum UpdateError {
    /// Only an input can be set; the key names a derived slot.
    NotAnInput,
    /// Only a derived slot can be redefined; the key names an input.
    NotDerived,
    /// The revision clock cannot move any further.
    RevisionsExhausted,
}

impl Database {
    fn resolve_exec(&self, k: DatabaseKeyIndex) -> (r: usize)
        requires
            self.wf(),
            self.valid_key(k),
        ensures
            r as int == self.resolve(k),
            r < self.slots.len(),
    {
        self.groups[k.group_index as usize].queries[k.query_index as usize].slots[k.key_index as usize]
    }

    fn derived_recipe(&self, id: usize) -> (r: Option<(Vec<DatabaseKeyIndex>, u64, u64)>)
        requires
            id < self.recipes.len(),
        ensures
            self.recipes[id as int] is Input ==> r is None,
            self.recipes[id as int] matches Recipe::Derived { sources, factor, fallback }
                ==> r matches Some((s, f, fb)) && s@ == sources@ && f == factor && fb == fallback,
    {
        match &self.recipes[id] {
            Recipe::Input => None,
            Recipe::Derived { sources, factor, fallback } => {
                let mut out: Vec<DatabaseKeyIndex> = Vec::new();
                let mut i: usize = 0;
                while i < sources.len()
                    invariant
                        i <= sources.len(),
                        out@ == sources@.subrange(0, i as int),
                    decreases sources.len() - i,
                {
                    out.push(sources[i]);
                    i = i + 1;
                }
                assert(out@ == sources@);
                Some((out, *factor, *fallback))
            },
        }
    }

    fn dep_list(&self, id: usize) -> (r: Vec<Dependency>)
        requires
            id < self.slots.len(),
        ensures
            r@ == self.slots[id as int].deps@,
    {
        let deps = &self.slots[id].deps;
        let mut out: Vec<Dependency> = Vec::new();
        let mut i: usize = 0;
        while i < deps.len()
            invariant
                i <= deps.len(),
                out@ == deps@.subrange(0, i as int),
            decreases deps.len() - i,
        {
            out.push(deps[i]);
            i = i + 1;
        }
        assert(out@ == deps@);
        out
    }

    proof fn lemma_same_shape_trans(a: Database, b: Database, c: Database)
        requires
            b.same_shape(a),
            c.same_shape(b),
        ensures
            c.same_shape(a),
    {
        assert forall|i: int| 0 <= i < c.slots.len() implies (#[trigger] c.slots[i]).key == a.slots[i].key by {
            assert(b.slots[i].key == a.slots[i].key);
        }
        assert forall|i: int| 0 <= i < c.slots.len() && a.recipes[i] is Input implies (#[trigger] c.slots[i]) == a.slots[i] by {
            assert(b.slots[i] == a.slots[i]);
        }
    }

    /// Keys that were valid stay valid and keep their slot across a change
    /// that keeps the shape.
    proof fn lemma_same_shape_keys(a: Database, b: Database, k: DatabaseKeyIndex)
        requires
            b.same_shape(a),
        ensures
            a.valid_key(k) == b.valid_key(k),
            a.resolve(k) == b.resolve(k),
    {
    }


    /// Slot `i` is known not to have changed after `since`: an input whose
    /// last change is no later than `since`, or a computed memo that was
    /// verified in `since` or later and last changed no later than `since`.
    pub closed spec fn unchanged_since(&self, since: Revision, i: int) -> bool {
        let s = self.slots[i];
        &&& s.stamp.changed_at.generation <= since.generation
        &&& (self.recipes[i] is Input || (s.computed && s.stamp.verified_at.generation >= since.generation))
    }

    pub closed spec fn key_unchanged_since(&self, since: Revision, k: DatabaseKeyIndex) -> bool {
        self.unchanged_since(since, self.resolve(k))
    }

    /// Every derived memo known unchanged since `since` read only slots that
    /// are known unchanged since `since` too, and of lower `rank`: the
    /// dependencies among those memos form no cycle, and no input they
    /// reach changed after `since`.
    pub closed spec fn stable_since(&self, since: Revision, rank: Seq<nat>) -> bool {
        &&& rank.len() == self.slots.len()
        &&& forall|i: int| 0 <= i < self.slots.len() && #[trigger] self.unchanged_since(since, i)
            && !(self.recipes[i] is Input) ==> forall|j: int| 0 <= j < self.slots[i].deps.len()
            ==> self.unchanged_since(since, self.resolve(#[trigger] self.slots[i].deps[j].target()))
            && rank[self.resolve(self.slots[i].deps[j].target())] < rank[i]
    }

    /// Every slot of `old` known unchanged since `since` still is in `self`.
    closed spec fn keeps_unchanged(&self, old: Database, since: Revision) -> bool {
        forall|i: int| 0 <= i < old.slots.len() && #[trigger] old.unchanged_since(since, i)
            ==> self.unchanged_since(since, i)
    }

    closed spec fn revalidation_premise(&self, stack: Seq<usize>, id: int, since: Revision, rank: Seq<nat>) -> bool {
        &&& self.stable_since(since, rank)
        &&& self.unchanged_since(since, id)
        &&& forall|t: int| 0 <= t < stack.len() ==> rank[#[trigger] stack[t] as int] > rank[id]
    }

    /// Confirming the memo of `id` with dependencies known unchanged keeps
    /// the database stable.
    proof fn lemma_confirm_keeps_stable(before: Database, after: Database, id: int, since: Revision, rank: Seq<nat>)
        requires
            before.wf(),
            before.stable_since(since, rank),
            after.recipes == before.recipes,
            after.groups == before.groups,
            0 <= id < before.slots.len(),
            after.slots@ == before.slots@.update(id, after.slots[id]),
            !(before.recipes[id] is Input),
            forall|j: int| 0 <= j < after.slots[id].deps.len() ==> before.valid_key(#[trigger] after.slots[id].deps[j].target()),
            after.slots[id].computed,
            after.slots[id].stamp.changed_at.generation <= since.generation,
            after.slots[id].stamp.verified_at.generation >= since.generation,
            forall|j: int| 0 <= j < after.slots[id].deps.len() ==> before.unchanged_since(
                since,
                before.resolve(#[trigger] after.slots[id].deps[j].target()),
            ) && rank[before.resolve(after.slots[id].deps[j].target())] < rank[id],
        ensures
            after.stable_since(since, rank),
            after.unchanged_since(since, id),
            after.keeps_unchanged(before, since),
    {
        assert forall|i: int| 0 <= i < after.slots.len() && #[trigger] before.unchanged_since(since, i)
            implies after.unchanged_since(since, i) by {
            if i != id {
                assert(after.slots[i] == before.slots[i]);
            }
        }
        assert forall|i: int| 0 <= i < after.slots.len() && #[trigger] after.unchanged_since(since, i)
            && !(after.recipes[i] is Input) implies forall|j: int| 0 <= j < after.slots[i].deps.len()
            ==> after.unchanged_since(since, after.resolve(#[trigger] after.slots[i].deps[j].target()))
            && rank[after.resolve(after.slots[i].deps[j].target())] < rank[i] by {
            assert forall|j: int| 0 <= j < after.slots[i].deps.len() implies after.unchanged_since(
                since,
                after.resolve(#[trigger] after.slots[i].deps[j].target()),
            ) && rank[after.resolve(after.slots[i].deps[j].target())] < rank[i] by {
                let d = after.resolve(after.slots[i].deps[j].target());
                if i != id {
                    assert(after.slots[i] == before.slots[i]);
                    assert(before.wf_slot(i));
                    assert(before.valid_key(before.slots[i].deps[j].target()));
                    assert(before.unchanged_since(since, i));
                    assert(before.unchanged_since(since, d));
                    if d != id {
                        assert(after.slots[d] == before.slots[d]);
                    }
                } else {
                    assert(before.valid_key(after.slots[id].deps[j].target()));
                    assert(before.unchanged_since(since, d));
                    assert(d != id);
                    assert(after.slots[d] == before.slots[d]);
                }
            }
        }
    }


    /// `rank` orders the slots so that every derived slot's sources and
    /// recorded dependencies rank lower than the slot itself: the query
    /// graph has no cycle.
    pub closed spec fn acyclic(&self, rank: Seq<nat>) -> bool {
        &&& rank.len() == self.slots.len()
        &&& forall|i: int| 0 <= i < self.slots.len() && !(#[trigger] self.recipes[i] is Input) ==> {
            &&& (forall|j: int| 0 <= j < self.slots[i].deps.len()
                ==> rank[self.resolve(#[trigger] self.slots[i].deps[j].target())] < rank[i])
            &&& (self.recipes[i] matches Recipe::Derived { sources, .. } ==> forall|j: int| 0 <= j < sources.len()
                ==> rank[self.resolve(#[trigger] sources[j])] < rank[i])
        }
    }

    /// Every derived slot reads only slots added before it: slot positions
    /// themselves rank the graph.
    pub closed spec fn ordered(&self) -> bool {
        self.acyclic(Seq::new(self.slots.len() as nat, |i: int| i as nat))
    }

    /// Growing the groups while keeping every slot keeps the graph acyclic.
    proof fn lemma_same_slots_keep_acyclic(before: Database, after: Database, rank: Seq<nat>)
        requires
            before.wf(),
            before.acyclic(rank),
            after.slots == before.slots,
            after.recipes == before.recipes,
            forall|k: DatabaseKeyIndex| #[trigger] before.valid_key(k) ==> after.resolve(k) == before.resolve(k),
        ensures
            after.acyclic(rank),
    {
        assert forall|i: int| 0 <= i < after.slots.len() && !(#[trigger] after.recipes[i] is Input) implies {
            &&& (forall|j: int| 0 <= j < after.slots[i].deps.len()
                ==> rank[after.resolve(#[trigger] after.slots[i].deps[j].target())] < rank[i])
            &&& (after.recipes[i] matches Recipe::Derived { sources, .. } ==> forall|j: int| 0 <= j < sources.len()
                ==> rank[after.resolve(#[trigger] sources[j])] < rank[i])
        } by {
            assert(before.wf_slot(i));
            assert(!(before.recipes[i] is Input));
            assert forall|j: int| 0 <= j < after.slots[i].deps.len() implies rank[after.resolve(
                #[trigger] after.slots[i].deps[j].target(),
            )] < rank[i] by {
                assert(before.valid_key(before.slots[i].deps[j].target()));
            }
            if let Recipe::Derived { sources, .. } = after.recipes[i] {
                assert forall|j: int| 0 <= j < sources.len() implies rank[after.resolve(#[trigger] sources[j])] < rank[i] by {
                    assert(before.valid_key(sources[j]));
                }
            }
        }
    }

    /// Every slot of `old` is still there, with the same memo, recipe and
    /// query.
    pub open spec fn keeps_slots_of(&self, old: Database) -> bool {
        forall|k: DatabaseKeyIndex| #[trigger] old.valid_key(k) ==> {
            &&& self.valid_key(k)
            &&& self.value_of(k) == old.value_of(k)
            &&& self.stamp_of(k) == old.stamp_of(k)
            &&& self.is_input(k) == old.is_input(k)
            &&& self.is_computed(k) == old.is_computed(k)
            &&& self.sources_of(k) == old.sources_of(k)
            &&& self.factor_of(k) == old.factor_of(k)
            &&& self.strategy_of(k) == old.strategy_of(k)
            &&& self.query_name_of(k) == old.query_name_of(k)
        }
    }

    /// `self` has the groups, queries and keys of `old`, each query with its
    /// name and cycle policy.
    pub open spec fn same_keys_as(&self, old: Database) -> bool {
        &&& self.group_count() == old.group_count()
        &&& forall|g: int| 0 <= g < old.group_count() ==> #[trigger] self.query_count(g) == old.query_count(g)
        &&& forall|g: int, q: int| 0 <= g < old.group_count() && 0 <= q < old.query_count(g)
            ==> #[trigger] self.key_count(g, q) == old.key_count(g, q)
        &&& forall|k: DatabaseKeyIndex| #[trigger] old.valid_key(k) ==> self.valid_key(k)
            && self.strategy_of(k) == old.strategy_of(k) && self.query_name_of(k) == old.query_name_of(k)
    }

    /// Every key of `old` other than `except` keeps its kind and recipe.
    pub open spec fn same_recipes_except(&self, old: Database, except: DatabaseKeyIndex) -> bool {
        forall|k: DatabaseKeyIndex| #[trigger] old.valid_key(k) && k != except ==> {
            &&& self.is_input(k) == old.is_input(k)
            &&& self.sources_of(k) == old.sources_of(k)
            &&& self.factor_of(k) == old.factor_of(k)
            &&& self.fallback_of(k) == old.fallback_of(k)
        }
    }

    /// `self` has the keys, recipes, queries and clock of `old`, and the
    /// same inputs; only derived memos may differ.
    pub open spec fn same_layout_as(&self, old: Database) -> bool {
        &&& self.same_keys_as(old)
        &&& self.now() == old.now()
        &&& forall|k: DatabaseKeyIndex| #[trigger] self.valid_key(k) ==> old.valid_key(k)
        &&& forall|k: DatabaseKeyIndex| #[trigger] old.valid_key(k) ==> {
            &&& self.valid_key(k)
            &&& self.is_input(k) == old.is_input(k)
            &&& self.sources_of(k) == old.sources_of(k)
            &&& self.factor_of(k) == old.factor_of(k)
            &&& self.fallback_of(k) == old.fallback_of(k)
            &&& self.strategy_of(k) == old.strategy_of(k)
            &&& self.query_name_of(k) == old.query_name_of(k)
            &&& (old.is_input(k) ==> self.value_of(k) == old.value_of(k) && self.stamp_of(k) == old.stamp_of(k))
        }
    }

    proof fn lemma_same_shape_layout(a: Database, b: Database)
        requires
            a.wf(),
            b.same_shape(a),
        ensures
            b.same_layout_as(a),
    {
        assert forall|k: DatabaseKeyIndex| #[trigger] a.valid_key(k) && a.is_input(k) implies b.value_of(k) == a.value_of(k)
            && b.stamp_of(k) == a.stamp_of(k) by {
            assert(b.slots[a.resolve(k)] == a.slots[a.resolve(k)]);
        }
    }

    closed spec fn cycle_free_premise(&self, stack: Seq<usize>, id: int, rank: Seq<nat>) -> bool {
        &&& self.acyclic(rank)
        &&& forall|t: int| 0 <= t < stack.len() ==> rank[#[trigger] stack[t] as int] > rank[id]
    }

    /// Replacing the memo of `id` by one whose dependencies rank lower keeps
    /// the graph acyclic.
    proof fn lemma_write_keeps_acyclic(before: Database, after: Database, id: int, rank: Seq<nat>)
        requires
            before.acyclic(rank),
            after.recipes == before.recipes,
            after.groups == before.groups,
            0 <= id < before.slots.len(),
            after.slots@ == before.slots@.update(id, after.slots[id]),
            forall|j: int| 0 <= j < after.slots[id].deps.len()
                ==> rank[before.resolve(#[trigger] after.slots[id].deps[j].target())] < rank[id],
        ensures
            after.acyclic(rank),
    {
        assert forall|i: int| 0 <= i < after.slots.len() && !(#[trigger] after.recipes[i] is Input)
            implies forall|j: int| 0 <= j < after.slots[i].deps.len()
                ==> rank[after.resolve(#[trigger] after.slots[i].deps[j].target())] < rank[i] by {
            if i != id {
                assert(after.slots[i] == before.slots[i]);
                assert(!(before.recipes[i] is Input));
            }
        }
    }


    /// The wrapping sum of the values of the slots that `srcs` names.
    pub open spec fn sum_of(&self, srcs: Seq<DatabaseKeyIndex>) -> u64
        decreases srcs.len(),
    {
        if srcs.len() == 0 {
            0
        } else {
            vstd::wrapping::u64_specs::wrapping_add(self.sum_of(srcs.drop_last()), self.value_of(srcs.last()))
        }
    }

    closed spec fn formula_at(&self, i: int) -> u64 {
        match self.recipes[i] {
            Recipe::Derived { sources, factor, .. } => vstd::wrapping::u64_specs::wrapping_mul(self.sum_of(sources@), factor),
            Recipe::Input => self.slots[i].value,
        }
    }

    /// The factor of the derived slot `k`.
    pub closed spec fn factor_of(&self, k: DatabaseKeyIndex) -> u64 {
        match self.recipes[self.resolve(k)] {
            Recipe::Derived { factor, .. } => factor,
            Recipe::Input => 1,
        }
    }

    /// The fallback value of the derived slot `k`.
    pub closed spec fn fallback_of(&self, k: DatabaseKeyIndex) -> u64 {
        match self.recipes[self.resolve(k)] {
            Recipe::Derived { fallback, .. } => fallback,
            Recipe::Input => 0,
        }
    }

    /// What bringing the slot of `k` up to date did, seen from the database
    /// `old` it started from; `ok` tells whether it succeeded. The slot's
    /// change revision never moves back; a successful refresh leaves a
    /// derived slot computed and verified now; a memo already verified now
    /// is left as it was; an equal value keeps its change revision and a
    /// different one is stamped now; a value that is not a cycle fallback is
    /// what the sources compute to, and a cycle fallback is the fallback.
    pub open spec fn refreshed(&self, old: Database, k: DatabaseKeyIndex, ok: bool) -> bool {
        &&& self.stamp_of(k).changed_at.generation >= old.stamp_of(k).changed_at.generation
        &&& ok && !old.is_input(k) ==> self.is_computed(k) && self.stamp_of(k).verified_at == self.now()
        &&& old.is_computed(k) && old.stamp_of(k).verified_at == old.now() ==> ok && *self == old
        &&& ok && old.is_computed(k) && self.value_of(k) == old.value_of(k)
            ==> self.stamp_of(k).changed_at == old.stamp_of(k).changed_at
        &&& ok && self.value_of(k) != old.value_of(k) ==> self.stamp_of(k).changed_at == self.now()
        &&& old.consistent() && !old.is_input(k) && ok && !self.is_recovered(k)
            ==> self.value_of(k) == self.computed_value(k)
        &&& old.ordered() && old.consistent() && old.none_recovered() && !old.is_input(k)
            ==> ok && !self.is_recovered(k) && self.value_of(k) == self.computed_value(k)
        &&& ok && self.is_recovered(k) ==> self.value_of(k) == self.fallback_of(k)
    }

    /// What the derived slot `k` computes from the present values of its
    /// sources: its factor times their sum, both wrapping.
    pub open spec fn computed_value(&self, k: DatabaseKeyIndex) -> u64 {
        vstd::wrapping::u64_specs::wrapping_mul(self.sum_of(self.sources_of(k)), self.factor_of(k))
    }

    /// The memo of `k` holds its fallback, taken when its computation was
    /// caught in a cycle.
    pub closed spec fn is_recovered(&self, k: DatabaseKeyIndex) -> bool {
        self.slots[self.resolve(k)].recovered
    }

    /// No memo holds a cycle fallback.
    pub closed spec fn none_recovered(&self) -> bool {
        forall|i: int| 0 <= i < self.slots.len() ==> !(#[trigger] self.slots[i]).recovered
    }

    closed spec fn current_at(&self, i: int) -> bool {
        self.recipes[i] is Input || (self.slots[i].computed && self.slots[i].stamp.verified_at == self.clock.now())
    }

    closed spec fn consistent_at(&self, i: int) -> bool {
        let s = self.slots[i];
        let srcs = self.recipes[i]->sources@;
        &&& s.deps.len() == srcs.len()
        &&& forall|j: int| 0 <= j < srcs.len() ==> (#[trigger] s.deps[j]).target() == srcs[j]
        &&& (forall|j: int| 0 <= j < srcs.len() ==> (#[trigger] self.stamp_of(srcs[j])).changed_at.generation
            <= s.stamp.verified_at.generation) ==> s.value == self.formula_at(i)
        &&& s.stamp.verified_at == self.clock.now() ==> forall|j: int| 0 <= j < srcs.len()
            ==> self.current_at(self.resolve(#[trigger] srcs[j]))
    }

    /// Every computed derived memo that is not a cycle fallback recorded its
    /// sources as its dependencies, holds what its sources compute to as
    /// long as none of them changed after it was verified, and, when verified
    /// in the present revision, read only sources that are current too.
    pub closed spec fn consistent(&self) -> bool {
        forall|i: int| 0 <= i < self.slots.len() && !(self.recipes[i] is Input) && self.slots[i].computed
            && !self.slots[i].recovered ==> #[trigger] self.consistent_at(i)
    }

    proof fn lemma_sum_agrees(a: Database, b: Database, srcs: Seq<DatabaseKeyIndex>)
        requires
            forall|j: int| 0 <= j < srcs.len() ==> a.value_of(#[trigger] srcs[j]) == b.value_of(srcs[j]),
        ensures
            a.sum_of(srcs) == b.sum_of(srcs),
        decreases srcs.len(),
    {
        if srcs.len() > 0 {
            let d = srcs.drop_last();
            assert forall|j: int| 0 <= j < d.len() implies a.value_of(#[trigger] d[j]) == b.value_of(d[j]) by {
                assert(d[j] == srcs[j]);
            }
            Self::lemma_sum_agrees(a, b, d);
            assert(a.value_of(srcs[srcs.len() - 1]) == b.value_of(srcs[srcs.len() - 1]));
        }
    }

    proof fn lemma_sum_step(a: Database, srcs: Seq<DatabaseKeyIndex>, i: int)
        requires
            0 <= i < srcs.len(),
        ensures
            a.sum_of(srcs.subrange(0, i + 1)) == vstd::wrapping::u64_specs::wrapping_add(
                a.sum_of(srcs.subrange(0, i)),
                a.value_of(srcs[i]),
            ),
    {
        assert(srcs.subrange(0, i + 1).drop_last() =~= srcs.subrange(0, i));
    }

    /// Writing a fresh memo for a slot that was not current keeps the
    /// database consistent.
    proof fn lemma_write_keeps_consistent(before: Database, after: Database, id: int)
        requires
            before.wf(),
            before.consistent(),
            after.recipes == before.recipes,
            after.groups == before.groups,
            after.clock == before.clock,
            0 <= id < before.slots.len(),
            after.slots@ == before.slots@.update(id, after.slots[id]),
            !(before.recipes[id] is Input),
            !before.current_at(id),
            after.slots[id].computed,
            after.slots[id].stamp.verified_at == after.clock.now(),
            after.slots[id].stamp.changed_at == after.clock.now() || (after.slots[id].stamp.changed_at
                == before.slots[id].stamp.changed_at && after.slots[id].value == before.slots[id].value),
            !after.slots[id].recovered ==> after.consistent_at(id),
        ensures
            after.consistent(),
    {
        assert forall|i: int| 0 <= i < after.slots.len() && !(after.recipes[i] is Input) && after.slots[i].computed
            && !after.slots[i].recovered implies #[trigger] after.consistent_at(i) by {
            if i != id {
                assert(after.slots[i] == before.slots[i]);
                assert(before.consistent_at(i));
                assert(before.wf_slot(i));
                let srcs = before.recipes[i]->sources@;
                let vi = before.slots[i].stamp.verified_at.generation;
                let touches = exists|j: int| 0 <= j < srcs.len() && before.resolve(srcs[j]) == id;
                let rewritten = after.slots[id].stamp.changed_at == after.clock.now();
                if !(touches && rewritten) {
                    assert forall|jj: int| 0 <= jj < srcs.len() implies after.value_of(#[trigger] srcs[jj])
                        == before.value_of(srcs[jj]) && after.stamp_of(srcs[jj]).changed_at
                        == before.stamp_of(srcs[jj]).changed_at by {
                        assert(before.valid_key(srcs[jj]));
                    }
                    Self::lemma_sum_agrees(after, before, srcs);
                    assert(after.formula_at(i) == before.formula_at(i));
                }
                if forall|jj: int| 0 <= jj < srcs.len() ==> (#[trigger] after.stamp_of(srcs[jj])).changed_at.generation <= vi {
                    if touches && rewritten {
                        let j = choose|j: int| 0 <= j < srcs.len() && before.resolve(srcs[j]) == id;
                        assert(before.valid_key(srcs[j]));
                        assert(after.stamp_of(srcs[j]).changed_at.generation <= vi);
                        assert(vi <= before.clock.now().generation);
                        assert(before.current_at(before.resolve(srcs[j])));
                        assert(false);
                    } else {
                        assert forall|jj: int| 0 <= jj < srcs.len() implies (#[trigger] before.stamp_of(srcs[jj])).changed_at.generation <= vi by {
                            assert(after.stamp_of(srcs[jj]).changed_at == before.stamp_of(srcs[jj]).changed_at);
                        }
                        assert(before.slots[i].value == before.formula_at(i));
                    }
                }
                assert forall|jj: int| 0 <= jj < srcs.len() && before.slots[i].stamp.verified_at == before.clock.now()
                    implies after.current_at(after.resolve(#[trigger] srcs[jj])) by {
                    assert(before.valid_key(srcs[jj]));
                    assert(before.current_at(before.resolve(srcs[jj])));
                }
            }
        }
    }


    /// Adding groups, queries or slots keeps the database consistent.
    proof fn lemma_growth_keeps_consistent(before: Database, after: Database)
        requires
            before.wf(),
            before.consistent(),
            after.clock == before.clock,
            after.slots.len() >= before.slots.len(),
            after.recipes.len() == after.slots.len(),
            forall|i: int| 0 <= i < before.slots.len() ==> #[trigger] after.slots[i] == before.slots[i]
                && after.recipes[i] == before.recipes[i],
            forall|i: int| before.slots.len() <= i < after.slots.len() ==> (#[trigger] after.recipes[i] is Input)
                || !after.slots[i].computed,
            forall|k: DatabaseKeyIndex| #[trigger] before.valid_key(k) ==> after.resolve(k) == before.resolve(k),
        ensures
            after.consistent(),
    {
        assert forall|i: int| 0 <= i < after.slots.len() && !(after.recipes[i] is Input) && after.slots[i].computed
            && !after.slots[i].recovered implies #[trigger] after.consistent_at(i) by {
            if i >= before.slots.len() {
                assert(after.recipes[i] is Input || !after.slots[i].computed);
            }
            assert(after.slots[i] == before.slots[i] && after.recipes[i] == before.recipes[i]);
            assert(before.consistent_at(i));
            assert(before.wf_slot(i));
            let srcs = before.recipes[i]->sources@;
            assert forall|j: int| 0 <= j < srcs.len() implies after.value_of(#[trigger] srcs[j]) == before.value_of(srcs[j])
                && after.stamp_of(srcs[j]) == before.stamp_of(srcs[j])
                && (after.current_at(after.resolve(srcs[j])) == before.current_at(before.resolve(srcs[j]))) by {
                assert(before.valid_key(srcs[j]));
            }
            Self::lemma_sum_agrees(after, before, srcs);
        }
    }

    /// Moving the clock forward while rewriting one slot as changed in the
    /// new revision, with no memo of its own, keeps the database consistent.
    proof fn lemma_advance_keeps_consistent(before: Database, after: Database, id: int)
        requires
            before.wf(),
            before.consistent(),
            after.groups == before.groups,
            after.clock.now().generation > before.clock.now().generation,
            0 <= id < before.slots.len(),
            after.slots@ == before.slots@.update(id, after.slots[id]),
            after.recipes.len() == before.recipes.len(),
            forall|i: int| 0 <= i < before.slots.len() && i != id ==> #[trigger] after.recipes[i] == before.recipes[i],
            after.slots[id].stamp.changed_at == after.clock.now(),
            after.recipes[id] is Input || !after.slots[id].computed,
        ensures
            after.consistent(),
    {
        assert forall|i: int| 0 <= i < after.slots.len() && !(after.recipes[i] is Input) && after.slots[i].computed
            && !after.slots[i].recovered implies #[trigger] after.consistent_at(i) by {
            assert(i != id);
            assert(after.slots[i] == before.slots[i]);
            assert(after.recipes[i] == before.recipes[i]);
            assert(before.consistent_at(i));
            assert(before.wf_slot(i));
            let srcs = before.recipes[i]->sources@;
            let vi = before.slots[i].stamp.verified_at.generation;
            if forall|jj: int| 0 <= jj < srcs.len() ==> (#[trigger] after.stamp_of(srcs[jj])).changed_at.generation <= vi {
                assert forall|j: int| 0 <= j < srcs.len() implies after.value_of(#[trigger] srcs[j]) == before.value_of(srcs[j])
                    && after.stamp_of(srcs[j]) == before.stamp_of(srcs[j]) by {
                    assert(before.valid_key(srcs[j]));
                    assert(after.stamp_of(srcs[j]).changed_at.generation <= vi);
                    if before.resolve(srcs[j]) == id {
                        assert(false);
                    }
                }
                Self::lemma_sum_agrees(after, before, srcs);
                assert(after.formula_at(i) == before.formula_at(i));
            }
        }
    }


    /// A memo verified in the present revision that is not a cycle fallback
    /// holds what its sources compute to.
    proof fn lemma_current_memo_value(db: Database, i: int)
        requires
            db.wf(),
            db.consistent(),
            0 <= i < db.slots.len(),
            !(db.recipes[i] is Input),
            db.slots[i].computed,
            !db.slots[i].recovered,
            db.slots[i].stamp.verified_at == db.clock.now(),
        ensures
            db.slots[i].value == db.formula_at(i),
    {
        assert(db.consistent_at(i));
        assert(db.wf_slot(i));
        let srcs = db.recipes[i]->sources@;
        assert forall|j: int| 0 <= j < srcs.len() implies (#[trigger] db.stamp_of(srcs[j])).changed_at.generation
            <= db.slots[i].stamp.verified_at.generation by {
            assert(db.valid_key(srcs[j]));
            assert(db.wf_slot(db.resolve(srcs[j])));
        }
    }


    /// In a database whose slots read only earlier slots, with no cycle
    /// fallback and every memo consistent, the present revision is stable:
    /// every slot current now read only slots that are current too.
    pub proof fn lemma_stable_now(db: Database)
        requires
            db.wf(),
            db.ordered(),
            db.consistent(),
            db.none_recovered(),
        ensures
            db.stable_since(db.now(), Seq::new(db.slot_count(), |i: int| i as nat)),
    {
        let rank = Seq::new(db.slot_count(), |i: int| i as nat);
        assert(db.acyclic(rank));
        assert forall|i: int| 0 <= i < db.slots.len() && #[trigger] db.unchanged_since(db.now(), i)
            && !(db.recipes[i] is Input) implies forall|j: int| 0 <= j < db.slots[i].deps.len()
            ==> db.unchanged_since(db.now(), db.resolve(#[trigger] db.slots[i].deps[j].target()))
            && rank[db.resolve(db.slots[i].deps[j].target())] < rank[i] by {
            assert(!db.slots[i].recovered);
            assert(db.consistent_at(i));
            assert(db.wf_slot(i));
            assert forall|j: int| 0 <= j < db.slots[i].deps.len() implies db.unchanged_since(
                db.now(),
                db.resolve(#[trigger] db.slots[i].deps[j].target()),
            ) && rank[db.resolve(db.slots[i].deps[j].target())] < rank[i] by {
                let t = db.slots[i].deps[j].target();
                assert(t == db.recipes[i]->sources@[j]);
                assert(db.valid_key(t));
                assert(db.current_at(db.resolve(t)));
                assert(db.wf_slot(db.resolve(t)));
            }
        }
    }

    /// Setting an input that no memo unchanged since `since` reads keeps the
    /// database stable since `since`.
    proof fn lemma_set_keeps_stable(before: Database, after: Database, id: int, since: Revision, rank: Seq<nat>)
        requires
            before.wf(),
            before.consistent(),
            before.none_recovered(),
            before.stable_since(since, rank),
            after.groups == before.groups,
            after.recipes == before.recipes,
            0 <= id < before.slots.len(),
            before.recipes[id] is Input,
            after.slots@ == before.slots@.update(id, after.slots[id]),
            forall|k: DatabaseKeyIndex| #[trigger] before.valid_key(k) && !before.is_input(k)
                && before.key_unchanged_since(since, k) ==> !before.sources_of(k).contains(before.slots[id].key),
        ensures
            after.stable_since(since, rank),
    {
        assert forall|i: int| 0 <= i < after.slots.len() && #[trigger] after.unchanged_since(since, i)
            && !(after.recipes[i] is Input) implies forall|j: int| 0 <= j < after.slots[i].deps.len()
            ==> after.unchanged_since(since, after.resolve(#[trigger] after.slots[i].deps[j].target()))
            && rank[after.resolve(after.slots[i].deps[j].target())] < rank[i] by {
            assert(i != id);
            assert(after.slots[i] == before.slots[i]);
            assert(before.unchanged_since(since, i));
            assert(before.wf_slot(i));
            let k = before.slots[i].key;
            assert(before.valid_key(k));
            assert(before.key_unchanged_since(since, k));
            assert(!before.slots[i].recovered);
            assert(before.consistent_at(i));
            assert forall|j: int| 0 <= j < after.slots[i].deps.len() implies after.unchanged_since(
                since,
                after.resolve(#[trigger] after.slots[i].deps[j].target()),
            ) && rank[after.resolve(after.slots[i].deps[j].target())] < rank[i] by {
                let t = before.slots[i].deps[j].target();
                assert(t == before.recipes[i]->sources@[j]);
                assert(before.sources_of(k).contains(t));
                assert(before.valid_key(t));
                assert(before.valid_key(before.slots[id].key));
                if before.resolve(t) == id {
                    assert(before.slots[before.resolve(t)].key == t);
                    assert(false);
                }
            }
        }
    }

    /// Brings the slot at position `id` up to date in the present revision,
    /// with the slots on `stack` being computed further up.
    #[verifier::rlimit(40)]
    fn fetch(&mut self, id: usize, stack: &mut Vec<usize>) -> (r: Result<u64, FetchError>)
        requires
            old(self).wf(),
            id < old(self).slots.len(),
            distinct_below(old(stack)@, old(self).slots.len() as nat),
            !old(stack)@.contains(id),
        ensures
            final(self).wf(),
            final(self).same_shape(*old(self)),
            final(stack)@ == old(stack)@,
            r matches Ok(v) ==> v == final(self).slots[id as int].value,
            old(self).recipes[id as int] is Input ==> r == Ok::<u64, FetchError>(old(self).slots[id as int].value)
                && *final(self) == *old(self),
            old(self).slots[id as int].computed && old(self).slots[id as int].stamp.verified_at == old(self).now()
                ==> r == Ok::<u64, FetchError>(old(self).slots[id as int].value) && *final(self) == *old(self),
            r is Ok && !(old(self).recipes[id as int] is Input) ==> final(self).slots[id as int].computed
                && final(self).slots[id as int].stamp.verified_at == final(self).now(),
            r is Ok && old(self).slots[id as int].computed
                && final(self).slots[id as int].value == old(self).slots[id as int].value
                ==> final(self).slots[id as int].stamp.changed_at == old(self).slots[id as int].stamp.changed_at,
            r is Ok && final(self).slots[id as int].value != old(self).slots[id as int].value
                ==> final(self).slots[id as int].stamp.changed_at == final(self).now(),
            forall|since: Revision, rank: Seq<nat>| #[trigger] old(self).revalidation_premise(old(stack)@, id as int, since, rank)
                ==> r is Ok && final(self).stable_since(since, rank) && final(self).unchanged_since(since, id as int)
                && final(self).keeps_unchanged(*old(self), since),
            forall|rank: Seq<nat>| #[trigger] old(self).cycle_free_premise(old(stack)@, id as int, rank)
                ==> r is Ok && final(self).acyclic(rank)
                && (old(self).none_recovered() ==> final(self).none_recovered()),
            forall|x: int| 0 <= x < old(self).slots.len() && (old(stack)@.contains(x as usize) || old(self).current_at(x))
                ==> #[trigger] final(self).slots[x] == old(self).slots[x],
            r is Ok ==> final(self).current_at(id as int),
            old(self).consistent() ==> final(self).consistent(),
            final(self).slots[id as int].stamp.changed_at.generation >= old(self).slots[id as int].stamp.changed_at.generation,
            r matches Err(FetchError::Cycle { head }) ==> old(stack)@.contains(head),
            r matches Err(FetchError::Unrecovered { query }) ==> old(self).valid_key(query)
                && old(self).strategy_of(query) == CycleRecoveryStrategy::Panic,
        decreases old(self).slots.len() - old(stack).len(),
    {
        let now = self.clock.current();
        let (sources, factor, fallback) = match self.derived_recipe(id) {
            None => return Ok(self.slots[id].value),
            Some(t) => t,
        };
        if self.slots[id].computed && self.slots[id].stamp.verified_at == now {
            return Ok(self.slots[id].value);
        }
        let was_computed = self.slots[id].computed;
        let old_value = self.slots[id].value;
        let old_stamp = self.slots[id].stamp;
        let old_recovered = self.slots[id].recovered;
        let key = self.slots[id].key;
        let old_deps = self.dep_list(id);
        let ghost pre = *self;
        let ghost n = self.slots.len() as nat;
        proof {
            assert(pre.wf_slot(id as int));
            assert(distinct_below(stack@.push(id), n)) by {
                assert forall|i: int| 0 <= i < stack@.push(id).len() implies (#[trigger] stack@.push(id)[i]) < n by {
                    if i < stack@.len() {
                        assert(stack@.push(id)[i] == stack@[i]);
                    }
                }
            }
            lemma_distinct_below_len(stack@.push(id), n);
        }
        assert(pre == *old(self));
        stack.push(id);
        let mut changed = !was_computed;
        let mut i: usize = 0;
        while i < old_deps.len() && !changed
            invariant
                pre == *old(self),
                !(pre.recipes[id as int] is Input),
                !pre.current_at(id as int),
                forall|x: int| 0 <= x < n && (stack@.contains(x as usize) || pre.current_at(x))
                    ==> #[trigger] self.slots[x] == pre.slots[x],
                pre.consistent() ==> self.consistent(),
                !changed ==> pre.slots[id as int].computed,
                !changed ==> forall|j: int| 0 <= j < i ==> !stack@.contains(pre.resolve(#[trigger] old_deps@[j].target()) as usize)
                    && self.current_at(pre.resolve(old_deps@[j].target()))
                    && self.slots[pre.resolve(old_deps@[j].target())].stamp.changed_at.generation <= old_stamp.verified_at.generation,
                old_deps@ == pre.slots[id as int].deps@,
                old_stamp == pre.slots[id as int].stamp,
                id < n,
                forall|since: Revision, rank: Seq<nat>| #[trigger] pre.revalidation_premise(old(stack)@, id as int, since, rank)
                    ==> !changed && self.stable_since(since, rank) && self.keeps_unchanged(pre, since),
                forall|rank: Seq<nat>| #[trigger] pre.cycle_free_premise(old(stack)@, id as int, rank)
                    ==> self.acyclic(rank) && (pre.none_recovered() ==> self.none_recovered()),
                self.wf(),
                self.same_shape(pre),
                pre.wf(),
                n == self.slots.len(),
                n == old(self).slots.len(),
                stack@ == old(stack)@.push(id),
                distinct_below(stack@, n),
                stack@.len() <= n,
                i <= old_deps.len(),
                forall|j: int| 0 <= j < old_deps.len() ==> pre.valid_key(#[trigger] old_deps@[j].target()),
            decreases old_deps.len() - i,
        {
            let target = old_deps[i].raw_slot();
            proof {
                Self::lemma_same_shape_keys(pre, *self, target);
            }
            let rid = self.resolve_exec(target);
            proof {
                assert forall|since: Revision, rank: Seq<nat>| #[trigger] pre.revalidation_premise(old(stack)@, id as int, since, rank)
                    implies self.unchanged_since(since, rid as int) && rank[rid as int] < rank[id as int] by {
                    assert(pre.unchanged_since(since, id as int));
                    assert(pre.slots[id as int].deps[i as int] == old_deps@[i as int]);
                    assert(pre.unchanged_since(since, pre.resolve(pre.slots[id as int].deps[i as int].target())));
                    assert(pre.unchanged_since(since, rid as int));
                }
            }
            if contains_id(stack, rid) {
                proof {
                    assert forall|since: Revision, rank: Seq<nat>| #[trigger] pre.revalidation_premise(old(stack)@, id as int, since, rank)
                        implies false by {
                        let t = choose|t: int| 0 <= t < stack@.len() && stack@[t] == rid;
                        if t < old(stack)@.len() {
                            assert(old(stack)@[t] == rid);
                        }
                    }
                }
                changed = true;
            } else {
                let ghost mid = *self;
                let ghost stack_at = stack@;
                let ghost changed_before = changed;
                let res = self.fetch(rid, stack);
                match res {
                    Ok(_) => {
                        if self.slots[rid].stamp.changed_at.generation > old_stamp.verified_at.generation {
                            changed = true;
                        }
                    },
                    Err(_) => {
                        changed = true;
                    },
                }
                proof {
                    Self::lemma_same_shape_trans(pre, mid, *self);
                    assert forall|x: int| 0 <= x < n && (stack@.contains(x as usize) || pre.current_at(x))
                        implies #[trigger] self.slots[x] == pre.slots[x] by {
                        assert(mid.slots[x] == pre.slots[x]);
                    }
                    if !changed {
                        assert forall|j: int| 0 <= j < i + 1 implies !stack@.contains(pre.resolve(#[trigger] old_deps@[j].target()) as usize)
                            && self.current_at(pre.resolve(old_deps@[j].target()))
                            && self.slots[pre.resolve(old_deps@[j].target())].stamp.changed_at.generation <= old_stamp.verified_at.generation by {
                            if j < i {
                                let x = pre.resolve(old_deps@[j].target());
                                assert(pre.valid_key(old_deps@[j].target()));
                                assert(mid.current_at(x));
                                assert(self.slots[x] == mid.slots[x]);
                            }
                        }
                    }
                    assert forall|rank: Seq<nat>| #[trigger] pre.cycle_free_premise(old(stack)@, id as int, rank)
                        implies self.acyclic(rank) && (pre.none_recovered() ==> self.none_recovered()) by {
                        assert(pre.slots[id as int].deps[i as int] == old_deps@[i as int]);
                        assert(rank[rid as int] < rank[id as int]);
                        assert forall|t: int| 0 <= t < stack_at.len() implies rank[#[trigger] stack_at[t] as int] > rank[rid as int] by {
                            if t < old(stack)@.len() {
                                assert(old(stack)@[t] == stack_at[t]);
                            }
                        }
                        assert(mid.cycle_free_premise(stack_at, rid as int, rank));
                    }
                    assert forall|since: Revision, rank: Seq<nat>| #[trigger] pre.revalidation_premise(old(stack)@, id as int, since, rank)
                        implies !changed && self.stable_since(since, rank) && self.keeps_unchanged(pre, since) by {
                        assert(mid.stable_since(since, rank));
                        assert(mid.unchanged_since(since, rid as int));
                        assert forall|t: int| 0 <= t < stack_at.len() implies rank[#[trigger] stack_at[t] as int] > rank[rid as int] by {
                            if t < old(stack)@.len() {
                                assert(old(stack)@[t] == stack_at[t]);
                            }
                        }
                        assert(mid.revalidation_premise(stack_at, rid as int, since, rank));
                        assert(pre.unchanged_since(since, id as int));
                        assert forall|x: int| 0 <= x < pre.slots.len() && #[trigger] pre.unchanged_since(since, x)
                            implies self.unchanged_since(since, x) by {
                            assert(mid.unchanged_since(since, x));
                        }
                    }
                }
            }
            i = i + 1;
        }
        if !changed {
            stack.pop();
            let stamp = old_stamp.confirm(now);
            proof {
                assert forall|j: int| 0 <= j < old_deps.len() implies self.valid_key(#[trigger] old_deps@[j].target()) by {
                    Self::lemma_same_shape_keys(pre, *self, old_deps@[j].target());
                }
            }
            let ghost before_write = *self;
            self.slots.set(id, Slot { key, value: old_value, computed: true, recovered: old_recovered, stamp, deps: old_deps });
            proof {
                self.lemma_write_keeps_wf(before_write, id as int);
                assert(before_write.slots[id as int] == pre.slots[id as int]);
                if pre.consistent() {
                    if !old_recovered {
                        assert(pre.consistent_at(id as int));
                        let srcs = pre.recipes[id as int]->sources@;
                        assert forall|j: int| 0 <= j < srcs.len() implies (#[trigger] before_write.stamp_of(srcs[j])).changed_at.generation
                            <= before_write.slots[id as int].stamp.verified_at.generation by {
                            assert(old_deps@[j].target() == srcs[j]);
                            assert(pre.valid_key(srcs[j]));
                        }
                        assert(before_write.consistent_at(id as int));
                        assert forall|j: int| 0 <= j < srcs.len() implies self.value_of(#[trigger] srcs[j])
                            == before_write.value_of(srcs[j]) && self.current_at(self.resolve(srcs[j])) by {
                            assert(old_deps@[j].target() == srcs[j]);
                            assert(pre.valid_key(srcs[j]));
                        }
                        Self::lemma_sum_agrees(*self, before_write, srcs);
                        assert(self.formula_at(id as int) == before_write.formula_at(id as int));
                        assert(self.consistent_at(id as int));
                    }
                    Self::lemma_write_keeps_consistent(before_write, *self, id as int);
                }
                assert forall|x: int| 0 <= x < old(self).slots.len() && (old(stack)@.contains(x as usize) || old(self).current_at(x))
                    implies #[trigger] self.slots[x] == old(self).slots[x] by {
                    if old(stack)@.contains(x as usize) {
                        let t = choose|t: int| 0 <= t < old(stack)@.len() && old(stack)@[t] == x as usize;
                        assert(old(stack)@.push(id)[t] == x as usize);
                    }
                }
                assert forall|rank: Seq<nat>| #[trigger] pre.cycle_free_premise(old(stack)@, id as int, rank)
                    implies self.acyclic(rank) && (pre.none_recovered() ==> self.none_recovered()) by {
                    assert forall|j: int| 0 <= j < self.slots[id as int].deps.len()
                        implies rank[before_write.resolve(#[trigger] self.slots[id as int].deps[j].target())] < rank[id as int] by {
                        Self::lemma_same_shape_keys(pre, before_write, pre.slots[id as int].deps[j].target());
                    }
                    Self::lemma_write_keeps_acyclic(before_write, *self, id as int, rank);
                    if pre.none_recovered() {
                        assert(!pre.slots[id as int].recovered);
                        assert forall|x: int| 0 <= x < self.slots.len() implies !(#[trigger] self.slots[x]).recovered by {
                            if x != id as int {
                                assert(!before_write.slots[x].recovered);
                            }
                        }
                    }
                }
                assert forall|since: Revision, rank: Seq<nat>| #[trigger] pre.revalidation_premise(old(stack)@, id as int, since, rank)
                    implies self.stable_since(since, rank) && self.unchanged_since(since, id as int)
                    && self.keeps_unchanged(pre, since) by {
                    assert(pre.unchanged_since(since, id as int));
                    assert forall|j: int| 0 <= j < self.slots[id as int].deps.len() implies before_write.unchanged_since(
                        since,
                        before_write.resolve(#[trigger] self.slots[id as int].deps[j].target()),
                    ) && rank[before_write.resolve(self.slots[id as int].deps[j].target())] < rank[id as int] by {
                        let d = pre.resolve(pre.slots[id as int].deps[j].target());
                        assert(pre.unchanged_since(since, d));
                        Self::lemma_same_shape_keys(pre, before_write, pre.slots[id as int].deps[j].target());
                    }
                    Self::lemma_confirm_keeps_stable(before_write, *self, id as int, since, rank);
                    assert forall|x: int| 0 <= x < pre.slots.len() && #[trigger] pre.unchanged_since(since, x)
                        implies self.unchanged_since(since, x) by {
                        assert(before_write.unchanged_since(since, x));
                    }
                }
            }
            return Ok(old_value);
        }
        assert forall|since: Revision, rank: Seq<nat>| #[trigger] pre.revalidation_premise(old(stack)@, id as int, since, rank)
            implies false by {
        }
        let mut sum: u64 = 0;
        let mut cycle_head: Option<usize> = None;
        let mut fatal: Option<DatabaseKeyIndex> = None;
        let mut i: usize = 0;
        while i < sources.len() && cycle_head.is_none() && fatal.is_none()
            invariant
                pre == *old(self),
                forall|since: Revision, rank: Seq<nat>| !(#[trigger] pre.revalidation_premise(old(stack)@, id as int, since, rank)),
                forall|rank: Seq<nat>| #[trigger] pre.cycle_free_premise(old(stack)@, id as int, rank)
                    ==> self.acyclic(rank) && cycle_head is None && fatal is None
                    && (pre.none_recovered() ==> self.none_recovered()),
                pre.recipes[id as int] is Derived,
                !pre.current_at(id as int),
                cycle_head matches Some(h) ==> stack@.contains(h),
                fatal matches Some(q) ==> pre.valid_key(q) && pre.strategy_of(q) == CycleRecoveryStrategy::Panic,
                forall|x: int| 0 <= x < n && (stack@.contains(x as usize) || pre.current_at(x))
                    ==> #[trigger] self.slots[x] == pre.slots[x],
                pre.consistent() ==> self.consistent(),
                cycle_head is None && fatal is None ==> sum == self.sum_of(sources@.subrange(0, i as int))
                    && forall|j: int| 0 <= j < i ==> !stack@.contains(self.resolve(#[trigger] sources@[j]) as usize)
                    && self.current_at(self.resolve(sources@[j])),
                sources@ == pre.recipes[id as int]->sources@,
                id < n,
                self.wf(),
                self.same_shape(pre),
                pre.wf(),
                n == self.slots.len(),
                n == old(self).slots.len(),
                stack@ == old(stack)@.push(id),
                distinct_below(stack@, n),
                stack@.len() <= n,
                i <= sources.len(),
                forall|j: int| 0 <= j < sources.len() ==> pre.valid_key(#[trigger] sources@[j]),
            decreases sources.len() - i,
        {
            let target = sources[i];
            proof {
                Self::lemma_same_shape_keys(pre, *self, target);
            }
            let rid = self.resolve_exec(target);
            proof {
                assert forall|rank: Seq<nat>| #[trigger] pre.cycle_free_premise(old(stack)@, id as int, rank)
                    implies rank[rid as int] < rank[id as int] by {
                    assert(!(pre.recipes[id as int] is Input));
                    assert(pre.recipes[id as int]->sources[i as int] == target);
                }
            }
            if contains_id(stack, rid) {
                proof {
                    assert forall|rank: Seq<nat>| #[trigger] pre.cycle_free_premise(old(stack)@, id as int, rank)
                        implies false by {
                        let t = choose|t: int| 0 <= t < stack@.len() && stack@[t] == rid;
                        if t < old(stack)@.len() {
                            assert(old(stack)@[t] == rid);
                        }
                    }
                }
                cycle_head = Some(rid);
            } else {
                let ghost mid = *self;
                let ghost stack_at = stack@;
                let res = self.fetch(rid, stack);
                match res {
                    Ok(v) => {
                        sum = sum.wrapping_add(v);
                    },
                    Err(FetchError::Cycle { head }) => {
                        cycle_head = Some(head);
                    },
                    Err(FetchError::Unrecovered { query }) => {
                        fatal = Some(query);
                    },
                }
                proof {
                    Self::lemma_same_shape_trans(pre, mid, *self);
                    if let Some(q) = fatal {
                        Self::lemma_same_shape_keys(pre, mid, q);
                    }
                    assert forall|x: int| 0 <= x < n && (stack@.contains(x as usize) || pre.current_at(x))
                        implies #[trigger] self.slots[x] == pre.slots[x] by {
                        assert(mid.slots[x] == pre.slots[x]);
                    }
                    if cycle_head.is_none() && fatal.is_none() {
                        assert forall|j: int| 0 <= j < i implies self.value_of(#[trigger] sources@.subrange(0, i as int)[j])
                            == mid.value_of(sources@.subrange(0, i as int)[j]) by {
                            let x = mid.resolve(sources@[j]);
                            assert(sources@.subrange(0, i as int)[j] == sources@[j]);
                            assert(mid.current_at(x));
                            assert(self.slots[x] == mid.slots[x]);
                            Self::lemma_same_shape_keys(mid, *self, sources@[j]);
                        }
                        Self::lemma_sum_agrees(*self, mid, sources@.subrange(0, i as int));
                        Self::lemma_sum_step(*self, sources@, i as int);
                        assert forall|j: int| 0 <= j < i + 1 implies !stack@.contains(self.resolve(#[trigger] sources@[j]) as usize)
                            && self.current_at(self.resolve(sources@[j])) by {
                            Self::lemma_same_shape_keys(mid, *self, sources@[j]);
                            if j < i {
                                let x = mid.resolve(sources@[j]);
                                assert(mid.current_at(x));
                                assert(self.slots[x] == mid.slots[x]);
                            }
                        }
                    }
                    assert forall|rank: Seq<nat>| #[trigger] pre.cycle_free_premise(old(stack)@, id as int, rank)
                        implies self.acyclic(rank) && res is Ok && (pre.none_recovered() ==> self.none_recovered()) by {
                        assert forall|t: int| 0 <= t < stack_at.len() implies rank[#[trigger] stack_at[t] as int] > rank[rid as int] by {
                            if t < old(stack)@.len() {
                                assert(old(stack)@[t] == stack_at[t]);
                            }
                        }
                        assert(mid.cycle_free_premise(stack_at, rid as int, rank));
                    }
                }
            }
            i = i + 1;
        }
        let ghost stack_end = stack@;
        stack.pop();
        proof {
            assert forall|x: int| 0 <= x < old(self).slots.len() && (old(stack)@.contains(x as usize) || old(self).current_at(x))
                implies #[trigger] self.slots[x] == old(self).slots[x] by {
                if old(stack)@.contains(x as usize) {
                    let t = choose|t: int| 0 <= t < old(stack)@.len() && old(stack)@[t] == x as usize;
                    assert(stack_end[t] == x as usize);
                }
            }
            assert(stack_end[old(stack)@.len() as int] == id);
            assert(self.slots[id as int] == pre.slots[id as int]);
            assert(pre.wf_slot(id as int));
            assert(pre.valid_key(pre.slots[id as int].key));
            if let Some(h) = cycle_head {
                if h != id {
                    let t = choose|t: int| 0 <= t < stack_end.len() && stack_end[t] == h;
                    assert(old(stack)@[t] == h);
                }
            }
        }
        if let Some(query) = fatal {
            return Err(FetchError::Unrecovered { query });
        }
        let value = match cycle_head {
            None => sum.wrapping_mul(factor),
            Some(_) => fallback,
        };
        let strategy = self.groups[key.group_index as usize].queries[key.query_index as usize].strategy;
        if cycle_head.is_some() && strategy == CycleRecoveryStrategy::Panic {
            return Err(FetchError::Unrecovered { query: key });
        }
        let mut deps: Vec<Dependency> = Vec::new();
        let mut j: usize = 0;
        while j < sources.len()
            invariant
                j <= sources.len(),
                deps.len() == j,
                forall|t: int| 0 <= t < j ==> (#[trigger] deps@[t]).target() == sources@[t],
            decreases sources.len() - j,
        {
            deps.push(Dependency::new(sources[j]));
            j = j + 1;
        }
        let previous = if was_computed { Some((old_value, old_stamp)) } else { None };
        let stamp = settle(previous, value, now);
        proof {
            assert forall|t: int| 0 <= t < deps.len() implies self.valid_key(#[trigger] deps@[t].target()) by {
                Self::lemma_same_shape_keys(pre, *self, sources@[t]);
            }
        }
        let ghost before_write = *self;
        self.slots.set(id, Slot { key, value, computed: true, recovered: cycle_head.is_some(), stamp, deps });
        proof {
            self.lemma_write_keeps_wf(before_write, id as int);
            if pre.consistent() {
                if cycle_head.is_none() {
                    let srcs = sources@;
                    assert(srcs.subrange(0, srcs.len() as int) =~= srcs);
                    assert forall|j: int| 0 <= j < srcs.len() implies self.value_of(#[trigger] srcs[j])
                        == before_write.value_of(srcs[j]) && self.current_at(self.resolve(srcs[j])) by {
                        assert(!stack_end.contains(before_write.resolve(srcs[j]) as usize));
                        assert(stack_end[old(stack)@.len() as int] == id);
                        assert(before_write.valid_key(srcs[j]));
                    }
                    Self::lemma_sum_agrees(*self, before_write, srcs);
                    assert forall|j: int| 0 <= j < srcs.len() implies (#[trigger] self.slots[id as int].deps[j]).target()
                        == pre.recipes[id as int]->sources@[j] by {
                    }
                    assert(self.consistent_at(id as int));
                }
                Self::lemma_write_keeps_consistent(before_write, *self, id as int);
            }
            assert forall|rank: Seq<nat>| #[trigger] pre.cycle_free_premise(old(stack)@, id as int, rank)
                implies self.acyclic(rank) && (pre.none_recovered() ==> self.none_recovered()) by {
                if pre.none_recovered() {
                    assert(before_write.none_recovered());
                    assert forall|x: int| 0 <= x < self.slots.len() implies !(#[trigger] self.slots[x]).recovered by {
                        if x != id as int {
                            assert(!before_write.slots[x].recovered);
                        }
                    }
                }
                assert forall|j: int| 0 <= j < self.slots[id as int].deps.len()
                    implies rank[before_write.resolve(#[trigger] self.slots[id as int].deps[j].target())] < rank[id as int] by {
                    assert(self.slots[id as int].deps[j].target() == sources@[j]);
                    assert(pre.recipes[id as int]->sources[j] == sources@[j]);
                    assert(!(pre.recipes[id as int] is Input));
                    Self::lemma_same_shape_keys(pre, before_write, sources@[j]);
                }
                Self::lemma_write_keeps_acyclic(before_write, *self, id as int, rank);
            }
        }
        match cycle_head {
            Some(head) => if head == id {
                Ok(value)
            } else {
                Err(FetchError::Cycle { head })
            },
            None => Ok(value),
        }
    }

    /// Replacing the memo of a derived slot with a well-formed one keeps the
    /// invariant and the shape.
    proof fn lemma_write_keeps_wf(&self, before: Database, id: int)
        requires
            before.wf(),
            0 <= id < before.slots.len(),
            !(before.recipes[id] is Input),
            self.groups == before.groups,
            self.recipes == before.recipes,
            self.clock == before.clock,
            self.slots@ == before.slots@.update(id, self.slots[id]),
            self.slots[id].key == before.slots[id].key,
            self.slots[id].stamp.wf(),
            self.slots[id].stamp.verified_at.generation <= self.clock.now().generation,
            forall|j: int| 0 <= j < self.slots[id].deps.len() ==> self.valid_key(#[trigger] self.slots[id].deps[j].target()),
            self.slots[id].recovered ==> self.slots[id].value == self.recipes[id]->fallback,
        ensures
            self.wf(),
            self.same_shape(before),
    {
        assert forall|k: DatabaseKeyIndex| #[trigger] self.valid_key(k) implies 0 <= self.resolve(k) < self.slots.len()
            && self.slots[self.resolve(k)].key == k by {
            assert(before.valid_key(k));
        }
        assert forall|i: int| 0 <= i < self.slots.len() implies self.valid_key(#[trigger] self.slots[i].key)
            && self.resolve(self.slots[i].key) == i by {
            assert(before.valid_key(before.slots[i].key));
        }
        assert forall|i: int| 0 <= i < self.slots.len() implies #[trigger] self.wf_slot(i) by {
            assert(before.wf_slot(i));
            if i == id {
                assert(before.wf_slot(id));
            }
        }
    }
}


impl Database {
    /// The slot of `k` holds a computed value.
    pub closed spec fn is_computed(&self, k: DatabaseKeyIndex) -> bool {
        self.slots[self.resolve(k)].computed
    }

    /// Every key of `old` is still valid in `self`, names the same storage and
    /// holds the same memo; the clock did not move.
    pub closed spec fn extends(&self, old: Database) -> bool {
        &&& self.clock == old.clock
        &&& self.groups.len() == old.groups.len()
        &&& forall|k: DatabaseKeyIndex| #[trigger] old.valid_key(k) ==> self.valid_key(k)
            && self.slots[self.resolve(k)] == old.slots[old.resolve(k)]
            && self.recipes[self.resolve(k)] == old.recipes[old.resolve(k)]
            && self.storage_of(k).name == old.storage_of(k).name
            && self.storage_of(k).strategy == old.storage_of(k).strategy
    }

    /// The sources that a derived slot reads.
    pub closed spec fn sources_of(&self, k: DatabaseKeyIndex) -> Seq<DatabaseKeyIndex> {
        match self.recipes[self.resolve(k)] {
            Recipe::Derived { sources, .. } => sources@,
            Recipe::Input => Seq::empty(),
        }
    }

    #[verifier::rlimit(60)]
    fn push_slot(&mut self, group: u16, query: u16, recipe: Recipe, value: u64, computed: bool) -> (r: Option<DatabaseKeyIndex>)
        requires
            old(self).wf(),
            group < old(self).group_count(),
            query < old(self).query_count(group as int),
            recipe matches Recipe::Derived { sources, .. } ==> forall|j: int|
                0 <= j < sources.len() ==> old(self).valid_key(#[trigger] sources[j]),
            recipe is Input || !computed,
        ensures
            final(self).wf(),
            final(self).extends(*old(self)),
            old(self).key_count(group as int, query as int) >= 0x1_0000_0000 || old(self).slot_count() == usize::MAX
                ==> r is None && *final(self) == *old(self),
            old(self).key_count(group as int, query as int) < 0x1_0000_0000 && old(self).slot_count() < usize::MAX
                ==> r == Some(DatabaseKeyIndex {
                    group_index: group,
                    query_index: query,
                    key_index: old(self).key_count(group as int, query as int) as u32,
                }),
            r matches Some(k) ==> final(self).valid_key(k) && !old(self).valid_key(k)
                && final(self).value_of(k) == value && final(self).is_computed(k) == computed
                && final(self).stamp_of(k) == MemoStamp::fresh_spec(final(self).now())
                && final(self).recipes[final(self).resolve(k)] == recipe,
            final(self).now() == old(self).now(),
            final(self).group_count() == old(self).group_count(),
            forall|g: int| 0 <= g < old(self).group_count() ==> #[trigger] final(self).query_count(g) == old(self).query_count(g),
            r is Some ==> final(self).slot_count() == old(self).slot_count() + 1
                && final(self).key_count(group as int, query as int) == old(self).key_count(group as int, query as int) + 1,
            forall|g: int, q: int| 0 <= g < old(self).group_count() && 0 <= q < old(self).query_count(g)
                && !(g == group as int && q == query as int) ==> #[trigger] final(self).key_count(g, q) == old(self).key_count(g, q),
            old(self).ordered() ==> final(self).ordered(),
            final(self).keeps_slots_of(*old(self)),
            old(self).consistent() ==> final(self).consistent(),
            old(self).none_recovered() ==> final(self).none_recovered(),
    {
        let count = self.groups[group as usize].queries[query as usize].slots.len();
        if count as u64 >= 0x1_0000_0000 || self.slots.len() == usize::MAX {
            return None;
        }
        let ghost pre = *self;
        let id = self.slots.len();
        let key = DatabaseKeyIndex { group_index: group, query_index: query, key_index: count as u32 };
        let now = self.clock.current();
        self.slots.push(Slot { key, value, computed, recovered: false, stamp: MemoStamp::fresh(now), deps: Vec::new() });
        self.recipes.push(recipe);
        let mut gs = self.groups.remove(group as usize);
        let ghost gs0 = gs;
        let mut qs = gs.queries.remove(query as usize);
        let ghost qs0 = qs;
        qs.slots.push(id);
        gs.queries.insert(query as usize, qs);
        self.groups.insert(group as usize, gs);
        proof {
            assert(gs0 == pre.groups[group as int]);
            assert(qs0 == pre.groups[group as int].queries[query as int]);
            assert(self.groups@ == pre.groups@.update(group as int, gs));
            assert(gs.queries@ == gs0.queries@.update(query as int, qs));
            assert(qs.slots@ == qs0.slots@.push(id));
            assert forall|k: DatabaseKeyIndex| #[trigger] pre.valid_key(k) implies self.valid_key(k)
                && self.resolve(k) == pre.resolve(k) && self.storage_of(k).name == pre.storage_of(k).name
                && self.storage_of(k).strategy == pre.storage_of(k).strategy by {
                if k.group_index == group && k.query_index == query {
                    assert(qs.slots@[k.key_index as int] == qs0.slots@[k.key_index as int]);
                } else if k.group_index == group {
                    assert(gs.queries@[k.query_index as int] == gs0.queries@[k.query_index as int]);
                }
            }
            assert forall|k: DatabaseKeyIndex| #[trigger] self.valid_key(k) implies pre.valid_key(k) || k == key by {
                if k.group_index == group && k.query_index == query {
                    if k.key_index as int == count as int {
                        assert(k == key);
                    }
                } else if k.group_index == group {
                    assert(gs.queries@[k.query_index as int] == gs0.queries@[k.query_index as int]);
                }
            }
            assert(self.valid_key(key));
            assert(self.resolve(key) == id);
            assert(!pre.valid_key(key));
            assert forall|k: DatabaseKeyIndex| #[trigger] self.valid_key(k) implies 0 <= self.resolve(k) < self.slots.len()
                && self.slots[self.resolve(k)].key == k by {
                if k != key {
                    assert(pre.valid_key(k));
                }
            }
            assert forall|i: int| 0 <= i < self.slots.len() implies self.valid_key(#[trigger] self.slots[i].key)
                && self.resolve(self.slots[i].key) == i by {
                if i < id {
                    assert(pre.valid_key(pre.slots[i].key));
                    assert(self.slots[i] == pre.slots[i]);
                }
            }
            assert(self.wf_index());
            assert forall|g: int, q: int| 0 <= g < self.groups.len() && 0 <= q < self.groups[g].queries.len()
                implies (#[trigger] self.groups[g].queries[q]).slots.len() <= 0x1_0000_0000 by {
                if g == group as int && q == query as int {
                } else if g == group as int {
                    assert(gs.queries@[q] == gs0.queries@[q]);
                }
            }
            assert forall|g: int| 0 <= g < self.groups.len() implies (#[trigger] self.groups[g]).group_index == g by {
                assert(pre.groups[g].group_index == g);
            }
            assert(self.wf_groups());
            assert forall|i: int| 0 <= i < self.slots.len() implies #[trigger] self.wf_slot(i) by {
                if i < id {
                    assert(pre.wf_slot(i));
                    assert(self.slots[i] == pre.slots[i]);
                    assert(self.recipes[i] == pre.recipes[i]);
                    let s = self.slots[i];
                    assert forall|j: int| 0 <= j < s.deps.len() implies self.valid_key(#[trigger] s.deps[j].target()) by {
                        assert(pre.valid_key(s.deps[j].target()));
                    }
                    if let Recipe::Derived { sources, .. } = self.recipes[i] {
                        assert forall|j: int| 0 <= j < sources.len() implies self.valid_key(#[trigger] sources[j]) by {
                            assert(pre.valid_key(sources[j]));
                        }
                    }
                } else {
                    if let Recipe::Derived { sources, .. } = self.recipes[i] {
                        assert forall|j: int| 0 <= j < sources.len() implies self.valid_key(#[trigger] sources[j]) by {
                            assert(pre.valid_key(sources[j]));
                        }
                    }
                }
            }
            assert forall|k: DatabaseKeyIndex| #[trigger] pre.valid_key(k) implies self.valid_key(k)
                && self.slots[self.resolve(k)] == pre.slots[pre.resolve(k)]
                && self.recipes[self.resolve(k)] == pre.recipes[pre.resolve(k)]
                && self.storage_of(k).name == pre.storage_of(k).name
                && self.storage_of(k).strategy == pre.storage_of(k).strategy by {
            }
            if pre.ordered() {
                let before = Seq::new(pre.slots.len() as nat, |x: int| x as nat);
                let rank = Seq::new(self.slots.len() as nat, |x: int| x as nat);
                assert(pre.acyclic(before));
                assert forall|x: int| 0 <= x < self.slots.len() && !(#[trigger] self.recipes[x] is Input) implies {
                    &&& (forall|j: int| 0 <= j < self.slots[x].deps.len()
                        ==> rank[self.resolve(#[trigger] self.slots[x].deps[j].target())] < rank[x])
                    &&& (self.recipes[x] matches Recipe::Derived { sources, .. } ==> forall|j: int| 0 <= j < sources.len()
                        ==> rank[self.resolve(#[trigger] sources[j])] < rank[x])
                } by {
                    if x < id {
                        assert(pre.wf_slot(x));
                        assert(self.slots[x] == pre.slots[x]);
                        assert(self.recipes[x] == pre.recipes[x]);
                        assert(!(pre.recipes[x] is Input));
                        assert forall|j: int| 0 <= j < self.slots[x].deps.len() implies rank[self.resolve(
                            #[trigger] self.slots[x].deps[j].target(),
                        )] < rank[x] by {
                            let t = pre.slots[x].deps[j].target();
                            assert(pre.valid_key(t));
                            assert(before[pre.resolve(t)] < before[x]);
                        }
                        if let Recipe::Derived { sources, .. } = self.recipes[x] {
                            assert forall|j: int| 0 <= j < sources.len() implies rank[self.resolve(#[trigger] sources[j])] < rank[x] by {
                                assert(pre.valid_key(sources[j]));
                                assert(before[pre.resolve(sources[j])] < before[x]);
                            }
                        }
                    } else {
                        if let Recipe::Derived { sources, .. } = self.recipes[x] {
                            assert forall|j: int| 0 <= j < sources.len() implies rank[self.resolve(#[trigger] sources[j])] < rank[x] by {
                                assert(pre.valid_key(sources[j]));
                            }
                        }
                    }
                }
                assert(self.acyclic(rank));
            }
            if pre.consistent() {
                Self::lemma_growth_keeps_consistent(pre, *self);
            }
            assert forall|g: int, q: int| 0 <= g < pre.group_count() && 0 <= q < pre.query_count(g)
                && !(g == group as int && q == query as int) implies #[trigger] self.key_count(g, q) == pre.key_count(g, q) by {
                if g == group as int {
                    assert(gs.queries@[q] == gs0.queries@[q]);
                }
            }
        }
        Some(key)
    }
}


impl Database {
    /// Adds an input slot of query `query` in group `group`, holding `value`
    /// and stamped with the present revision. It gets the next key index of
    /// that query; `None` when the query or the database has no room left.
    pub fn add_input(&mut self, group: u16, query: u16, value: u64) -> (r: Option<DatabaseKeyIndex>)
        requires
            old(self).wf(),
            group < old(self).group_count(),
            query < old(self).query_count(group as int),
        ensures
            final(self).wf(),
            final(self).extends(*old(self)),
            old(self).key_count(group as int, query as int) >= 0x1_0000_0000 || old(self).slot_count() == usize::MAX
                ==> r is None && *final(self) == *old(self),
            old(self).key_count(group as int, query as int) < 0x1_0000_0000 && old(self).slot_count() < usize::MAX
                ==> r == Some(DatabaseKeyIndex {
                    group_index: group,
                    query_index: query,
                    key_index: old(self).key_count(group as int, query as int) as u32,
                }),
            r matches Some(k) ==> final(self).valid_key(k) && final(self).is_input(k)
                && final(self).value_of(k) == value
                && final(self).stamp_of(k) == MemoStamp::fresh_spec(final(self).now()),
            final(self).now() == old(self).now(),
            final(self).group_count() == old(self).group_count(),
            forall|g: int| 0 <= g < old(self).group_count() ==> #[trigger] final(self).query_count(g) == old(self).query_count(g),
            r is Some ==> final(self).slot_count() == old(self).slot_count() + 1
                && final(self).key_count(group as int, query as int) == old(self).key_count(group as int, query as int) + 1,
            forall|g: int, q: int| 0 <= g < old(self).group_count() && 0 <= q < old(self).query_count(g)
                && !(g == group as int && q == query as int) ==> #[trigger] final(self).key_count(g, q) == old(self).key_count(g, q),
            old(self).ordered() ==> final(self).ordered(),
            final(self).keeps_slots_of(*old(self)),
            old(self).consistent() ==> final(self).consistent(),
            old(self).none_recovered() ==> final(self).none_recovered(),
    {
        self.push_slot(group, query, Recipe::Input, value, true)
    }

    /// Adds a derived slot of query `query` in group `group`: its value is
    /// `factor` times the sum of the values of `sources` (wrapping), or
    /// `fallback` when its computation is caught in a cycle and the query
    /// recovers from cycles. Nothing is computed until it is read.
    pub fn add_derived(
        &mut self,
        group: u16,
        query: u16,
        sources: Vec<DatabaseKeyIndex>,
        factor: u64,
        fallback: u64,
    ) -> (r: Option<DatabaseKeyIndex>)
        requires
            old(self).wf(),
            group < old(self).group_count(),
            query < old(self).query_count(group as int),
            forall|j: int| 0 <= j < sources.len() ==> old(self).valid_key(#[trigger] sources[j]),
        ensures
            final(self).wf(),
            final(self).extends(*old(self)),
            old(self).key_count(group as int, query as int) >= 0x1_0000_0000 || old(self).slot_count() == usize::MAX
                ==> r is None && *final(self) == *old(self),
            old(self).key_count(group as int, query as int) < 0x1_0000_0000 && old(self).slot_count() < usize::MAX
                ==> r == Some(DatabaseKeyIndex {
                    group_index: group,
                    query_index: query,
                    key_index: old(self).key_count(group as int, query as int) as u32,
                }),
            r matches Some(k) ==> final(self).valid_key(k) && !final(self).is_input(k)
                && !final(self).is_computed(k) && final(self).sources_of(k) == sources@
                && final(self).factor_of(k) == factor,
            final(self).now() == old(self).now(),
            final(self).group_count() == old(self).group_count(),
            forall|g: int| 0 <= g < old(self).group_count() ==> #[trigger] final(self).query_count(g) == old(self).query_count(g),
            r is Some ==> final(self).slot_count() == old(self).slot_count() + 1
                && final(self).key_count(group as int, query as int) == old(self).key_count(group as int, query as int) + 1,
            forall|g: int, q: int| 0 <= g < old(self).group_count() && 0 <= q < old(self).query_count(g)
                && !(g == group as int && q == query as int) ==> #[trigger] final(self).key_count(g, q) == old(self).key_count(g, q),
            old(self).ordered() ==> final(self).ordered(),
            final(self).keeps_slots_of(*old(self)),
            old(self).consistent() ==> final(self).consistent(),
            old(self).none_recovered() ==> final(self).none_recovered(),
    {
        self.push_slot(group, query, Recipe::Derived { sources, factor, fallback }, 0, false)
    }

    /// Sets the input slot `key` to `value`. Setting the value it already
    /// holds changes nothing; any other value moves the clock one revision
    /// forward and stamps the slot as changed there.
    pub fn set_input(&mut self, key: DatabaseKeyIndex, value: u64) -> (r: Result<(), UpdateError>)
        requires
            old(self).wf(),
            old(self).valid_key(key),
        ensures
            final(self).wf(),
            !old(self).is_input(key) ==> r == Err::<(), UpdateError>(UpdateError::NotAnInput)
                && *final(self) == *old(self),
            old(self).is_input(key) && old(self).value_of(key) == value ==> r is Ok && *final(self) == *old(self),
            old(self).is_input(key) && old(self).value_of(key) != value && old(self).now().generation == u64::MAX
                ==> r == Err::<(), UpdateError>(UpdateError::RevisionsExhausted) && *final(self) == *old(self),
            old(self).is_input(key) && old(self).value_of(key) != value && old(self).now().generation < u64::MAX
                ==> r is Ok
                && final(self).now().generation == old(self).now().generation + 1
                && final(self).value_of(key) == value
                && final(self).stamp_of(key) == MemoStamp::fresh_spec(final(self).now())
                && forall|k: DatabaseKeyIndex| #[trigger] old(self).valid_key(k) ==> final(self).valid_key(k)
                    && final(self).resolve(k) == old(self).resolve(k)
                    && final(self).is_input(k) == old(self).is_input(k)
                    && (old(self).resolve(k) != old(self).resolve(key) ==> final(self).value_of(k) == old(self).value_of(k)
                        && final(self).stamp_of(k) == old(self).stamp_of(k)
                        && final(self).is_computed(k) == old(self).is_computed(k)),
            old(self).ordered() ==> final(self).ordered(),
            old(self).consistent() ==> final(self).consistent(),
            old(self).none_recovered() ==> final(self).none_recovered(),
            final(self).same_keys_as(*old(self)),
            final(self).same_recipes_except(*old(self), key),
            final(self).is_input(key) == old(self).is_input(key),
            forall|since: Revision, rank: Seq<nat>| #[trigger] old(self).stable_since(since, rank)
                && old(self).consistent() && old(self).none_recovered()
                && (forall|k: DatabaseKeyIndex| #[trigger] old(self).valid_key(k) && !old(self).is_input(k)
                    && old(self).key_unchanged_since(since, k) ==> !old(self).sources_of(k).contains(key))
                ==> final(self).stable_since(since, rank),
    {
        let id = self.resolve_exec(key);
        if self.derived_recipe(id).is_some() {
            return Err(UpdateError::NotAnInput);
        }
        if self.slots[id].value == value {
            return Ok(());
        }
        if self.clock.current().generation == u64::MAX {
            return Err(UpdateError::RevisionsExhausted);
        }
        let ghost pre = *self;
        let now = self.clock.advance();
        proof {
            assert(pre.wf_slot(id as int));
        }
        self.slots.set(id, Slot { key, value, computed: true, recovered: false, stamp: MemoStamp::fresh(now), deps: Vec::new() });
        proof {
            assert forall|k: DatabaseKeyIndex| #[trigger] self.valid_key(k) implies 0 <= self.resolve(k) < self.slots.len()
                && self.slots[self.resolve(k)].key == k by {
                assert(pre.valid_key(k));
            }
            assert forall|i: int| 0 <= i < self.slots.len() implies self.valid_key(#[trigger] self.slots[i].key)
                && self.resolve(self.slots[i].key) == i by {
                assert(pre.valid_key(pre.slots[i].key));
            }
            assert forall|i: int| 0 <= i < self.slots.len() implies #[trigger] self.wf_slot(i) by {
                assert(pre.wf_slot(i));
            }
            if pre.ordered() {
                Self::lemma_write_keeps_acyclic(pre, *self, id as int, Seq::new(pre.slots.len() as nat, |x: int| x as nat));
            }
            if pre.consistent() {
                Self::lemma_advance_keeps_consistent(pre, *self, id as int);
            }
            assert(pre.slots[id as int].key == key);
            assert forall|since: Revision, rank: Seq<nat>| #[trigger] pre.stable_since(since, rank)
                && pre.consistent() && pre.none_recovered()
                && (forall|k: DatabaseKeyIndex| #[trigger] pre.valid_key(k) && !pre.is_input(k)
                    && pre.key_unchanged_since(since, k) ==> !pre.sources_of(k).contains(key))
                implies self.stable_since(since, rank) by {
                Self::lemma_set_keeps_stable(pre, *self, id as int, since, rank);
            }
        }
        Ok(())
    }

    /// Reads the slot `key`, bringing it up to date in the present revision.
    /// An input reads as its value. A derived slot is reused when none of
    /// the slots it read changed after it was last verified, and recomputed
    /// otherwise; a recomputation that yields the old value keeps its old
    /// change revision. The read fails only when it runs into a cycle that
    /// a participant cannot recover from.
    pub fn read(&mut self, key: DatabaseKeyIndex) -> (r: Result<u64, CycleError>)
        requires
            old(self).wf(),
            old(self).valid_key(key),
        ensures
            final(self).wf(),
            final(self).same_shape(*old(self)),
            final(self).same_layout_as(*old(self)),
            final(self).valid_key(key),
            r matches Ok(v) ==> v == final(self).value_of(key),
            old(self).is_input(key) ==> r == Ok::<u64, CycleError>(old(self).value_of(key)),
            r is Ok && !old(self).is_input(key) ==> final(self).is_computed(key)
                && final(self).stamp_of(key).verified_at == final(self).now(),
            old(self).is_computed(key) && old(self).stamp_of(key).verified_at == old(self).now()
                ==> r == Ok::<u64, CycleError>(old(self).value_of(key)) && *final(self) == *old(self),
            r is Ok && old(self).is_computed(key) && final(self).value_of(key) == old(self).value_of(key)
                ==> final(self).stamp_of(key).changed_at == old(self).stamp_of(key).changed_at,
            r is Ok && final(self).value_of(key) != old(self).value_of(key)
                ==> final(self).stamp_of(key).changed_at == final(self).now(),
            forall|since: Revision, rank: Seq<nat>| #[trigger] old(self).stable_since(since, rank)
                && old(self).key_unchanged_since(since, key)
                ==> r is Ok && !final(self).stamp_of(key).changed_after(since)
                && final(self).stable_since(since, rank) && final(self).key_unchanged_since(since, key),
            forall|rank: Seq<nat>| #[trigger] old(self).acyclic(rank) ==> r is Ok && final(self).acyclic(rank),
            old(self).ordered() ==> r is Ok && final(self).ordered(),
            old(self).consistent() ==> final(self).consistent(),
            old(self).ordered() && old(self).none_recovered() ==> final(self).none_recovered(),
            old(self).consistent() && !old(self).is_input(key) && r is Ok && !final(self).is_recovered(key)
                ==> r == Ok::<u64, CycleError>(final(self).computed_value(key)),
            old(self).ordered() && old(self).consistent() && old(self).none_recovered() && !old(self).is_input(key)
                ==> r == Ok::<u64, CycleError>(final(self).computed_value(key)),
            final(self).refreshed(*old(self), key, r is Ok),
            r matches Err(e) ==> old(self).valid_key(e.query) && old(self).strategy_of(e.query) == CycleRecoveryStrategy::Panic,
    {
        let id = self.resolve_exec(key);
        let mut stack: Vec<usize> = Vec::new();
        let ghost pre = *self;
        let ghost stack0 = stack@;
        let r = self.fetch(id, &mut stack);
        proof {
            Self::lemma_same_shape_keys(pre, *self, key);
            Self::lemma_same_shape_layout(pre, *self);
            assert forall|since: Revision, rank: Seq<nat>| #[trigger] pre.stable_since(since, rank)
                && pre.key_unchanged_since(since, key) implies r is Ok && !self.stamp_of(key).changed_after(since)
                && self.stable_since(since, rank) && self.key_unchanged_since(since, key) by {
                assert(pre.revalidation_premise(stack0, id as int, since, rank));
            }
            assert forall|rank: Seq<nat>| #[trigger] pre.acyclic(rank) implies r is Ok && self.acyclic(rank) by {
                assert(pre.cycle_free_premise(stack0, id as int, rank));
            }
            assert(self.wf_slot(id as int));
            assert(pre.wf_slot(id as int));
            if pre.consistent() && !pre.is_input(key) && r is Ok && !self.slots[id as int].recovered {
                Self::lemma_current_memo_value(*self, id as int);
            }
            let pos = Seq::new(pre.slots.len() as nat, |i: int| i as nat);
            if pre.ordered() {
                assert(pre.acyclic(pos));
                assert(pre.cycle_free_premise(stack0, id as int, pos));
                if pre.none_recovered() && pre.consistent() && !pre.is_input(key) {
                    assert(!self.slots[id as int].recovered);
                    Self::lemma_current_memo_value(*self, id as int);
                }
                assert(self.slots.len() == pre.slots.len());
                assert(Seq::new(self.slots.len() as nat, |i: int| i as nat) == pos);
            }
        }
        match r {
            Ok(v) => Ok(v),
            Err(FetchError::Unrecovered { query }) => Err(CycleError { query }),
            Err(FetchError::Cycle { .. }) => Err(CycleError { query: key }),
        }
    }

    /// Whether the value of `index` may have changed after `revision`, once
    /// the slot is brought up to date.
    pub fn maybe_changed_after(&mut self, index: DatabaseKeyIndex, revision: Revision) -> (r: Result<bool, CycleError>)
        requires
            old(self).wf(),
            old(self).valid_key(index),
        ensures
            final(self).wf(),
            final(self).same_shape(*old(self)),
            final(self).same_layout_as(*old(self)),
            r matches Ok(b) ==> b == final(self).stamp_of(index).changed_after(revision),
            old(self).is_input(index) ==> r == Ok::<bool, CycleError>(old(self).stamp_of(index).changed_after(revision)),
            forall|rank: Seq<nat>| #[trigger] old(self).stable_since(revision, rank)
                && old(self).key_unchanged_since(revision, index) ==> r == Ok::<bool, CycleError>(false),
            forall|rank: Seq<nat>| #[trigger] old(self).acyclic(rank) ==> r is Ok && final(self).acyclic(rank),
            old(self).ordered() ==> r is Ok && final(self).ordered(),
            old(self).consistent() ==> final(self).consistent(),
            old(self).ordered() && old(self).none_recovered() ==> final(self).none_recovered(),
            final(self).refreshed(*old(self), index, r is Ok),
            r matches Err(e) ==> old(self).valid_key(e.query) && old(self).strategy_of(e.query) == CycleRecoveryStrategy::Panic,
    {
        let ghost pre = *self;
        match self.read(index) {
            Ok(_) => {
                let id = self.resolve_exec(index);
                proof {
                    Self::lemma_same_shape_keys(pre, *self, index);
                }
                Ok(self.slots[id].stamp.maybe_changed_after(revision))
            },
            Err(e) => Err(e),
        }
    }

    /// A diagnostic name for `index`: its group, its query and its key.
    pub fn fmt_index(&self, index: DatabaseKeyIndex) -> (r: QueryLabel)
        requires
            self.wf(),
            self.valid_key(index),
        ensures
            r.group@ == self.group_name_of(index.group_index as int),
            r.query@ == self.query_name_of(index),
            r.key_index == index.key_index,
    {
        let group = &self.groups[index.group_index as usize];
        QueryLabel {
            group: group.name.clone(),
            query: group.queries[index.query_index as usize].name.clone(),
            key_index: index.key_index,
        }
    }

    /// The cycle policy of the query that `index` belongs to.
    pub fn cycle_recovery_strategy(&self, index: DatabaseKeyIndex) -> (r: CycleRecoveryStrategy)
        requires
            self.wf(),
            index.group_index < self.group_count(),
            index.query_index < self.query_count(index.group_index as int),
        ensures
            r == self.strategy_of(index),
    {
        self.groups[index.group_index as usize].queries[index.query_index as usize].strategy
    }

    /// Every query of every group, group by group in index order, as
    /// (group index, query index) pairs; a mass operation visits them in
    /// this order.
    pub fn for_each_query(&self) -> (r: Vec<(u16, u16)>)
        requires
            self.wf(),
        ensures
            forall|i: int| 0 <= i < r.len() ==> (#[trigger] r[i]).0 < self.group_count()
                && r[i].1 < self.query_count(r[i].0 as int),
            forall|g: int, q: int| 0 <= g < self.group_count() && 0 <= q < self.query_count(g)
                ==> #[trigger] r@.contains((g as u16, q as u16)),
            forall|i: int, j: int| 0 <= i < j < r.len() ==> query_before(#[trigger] r[i], #[trigger] r[j]),
            r@.no_duplicates(),
    {
        let mut out: Vec<(u16, u16)> = Vec::new();
        let mut g: usize = 0;
        while g < self.groups.len()
            invariant
                self.wf(),
                g <= self.groups.len(),
                forall|i: int| 0 <= i < out.len() ==> (#[trigger] out[i]).0 < self.group_count()
                    && out[i].1 < self.query_count(out[i].0 as int),
                forall|gg: int, q: int| 0 <= gg < g && 0 <= q < self.query_count(gg)
                    ==> #[trigger] out@.contains((gg as u16, q as u16)),
                forall|i: int, j: int| 0 <= i < j < out.len() ==> query_before(#[trigger] out[i], #[trigger] out[j]),
                forall|i: int| 0 <= i < out.len() ==> (#[trigger] out[i]).0 < g,
            decreases self.groups.len() - g,
        {
            let mut q: usize = 0;
            let ghost before = out@;
            assert(self.wf_groups());
            assert(self.groups[g as int].queries.len() <= 0x10000);
            while q < self.groups[g].queries.len()
                invariant
                    self.wf(),
                    g < self.groups.len(),
                    q <= self.groups[g as int].queries.len(),
                    forall|x: (u16, u16)| before.contains(x) ==> #[trigger] out@.contains(x),
                    forall|i: int| 0 <= i < out.len() ==> (#[trigger] out[i]).0 < self.group_count()
                        && out[i].1 < self.query_count(out[i].0 as int),
                    forall|qq: int| 0 <= qq < q ==> #[trigger] out@.contains((g as u16, qq as u16)),
                    forall|i: int, j: int| 0 <= i < j < out.len() ==> query_before(#[trigger] out[i], #[trigger] out[j]),
                    forall|i: int| 0 <= i < out.len() ==> (#[trigger] out[i]).0 < g || (out[i].0 == g && out[i].1 < q),
                    self.groups.len() <= 0x10000,
                    self.groups[g as int].queries.len() <= 0x10000,
                decreases self.groups[g as int].queries.len() - q,
            {
                let ghost prev = out@;
                out.push((g as u16, q as u16));
                proof {
                    assert(out@[out@.len() - 1] == (g as u16, q as u16));
                    assert forall|x: (u16, u16)| prev.contains(x) implies #[trigger] out@.contains(x) by {
                        let i = choose|i: int| 0 <= i < prev.len() && prev[i] == x;
                        assert(out@[i] == x);
                    }
                }
                q = q + 1;
            }
            proof {
                assert forall|gg: int, qq: int| 0 <= gg <= g && 0 <= qq < self.query_count(gg)
                    implies #[trigger] out@.contains((gg as u16, qq as u16)) by {
                    if gg < g {
                        assert(before.contains((gg as u16, qq as u16)));
                    }
                }
            }
            g = g + 1;
        }
        proof {
            assert forall|i: int, j: int| 0 <= i < out.len() && 0 <= j < out.len() && i != j
                implies out@[i] != out@[j] by {
                if i < j {
                    assert(query_before(out[i], out[j]));
                } else {
                    assert(query_before(out[j], out[i]));
                }
            }
        }
        out
    }
}

/// `a` comes before `b` in group-by-group, query-by-query order.
pub open spec fn query_before(a: (u16, u16), b: (u16, u16)) -> bool {
    a.0 < b.0 || (a.0 == b.0 && a.1 < b.1)
}

/// Every dispatched operation on a key is answered by the storage of the
/// key's own group: two databases whose storage for that group agrees route
/// the key to the same query storage and the same slot position, whatever
/// the other groups hold.
pub proof fn lemma_dispatch_reads_own_group(d1: Database, d2: Database, k: DatabaseKeyIndex)
    requires
        k.group_index < d1.group_count(),
        k.group_index < d2.group_count(),
        d1.group(k.group_index as int) == d2.group(k.group_index as int),
    ensures
        d1.valid_key(k) == d2.valid_key(k),
        d1.storage_of(k) == d2.storage_of(k),
        d1.strategy_of(k) == d2.strategy_of(k),
        d1.query_name_of(k) == d2.query_name_of(k),
        d1.group_name_of(k.group_index as int) == d2.group_name_of(k.group_index as int),
        d1.valid_key(k) ==> d1.resolve(k) == d2.resolve(k),
{
}


impl Database {
    /// Gives the derived slot `key` new sources, factor and fallback. Like
    /// setting an input, this moves the clock one revision forward and
    /// stamps the slot as changed there; its memo is dropped, so its next
    /// read computes it afresh. Sources may name any slot of the database,
    /// `key` itself included.
    pub fn redefine(
        &mut self,
        key: DatabaseKeyIndex,
        sources: Vec<DatabaseKeyIndex>,
        factor: u64,
        fallback: u64,
    ) -> (r: Result<(), UpdateError>)
        requires
            old(self).wf(),
            old(self).valid_key(key),
            forall|j: int| 0 <= j < sources.len() ==> old(self).valid_key(#[trigger] sources[j]),
        ensures
            final(self).wf(),
            old(self).is_input(key) ==> r == Err::<(), UpdateError>(UpdateError::NotDerived)
                && *final(self) == *old(self),
            !old(self).is_input(key) && old(self).now().generation == u64::MAX
                ==> r == Err::<(), UpdateError>(UpdateError::RevisionsExhausted) && *final(self) == *old(self),
            !old(self).is_input(key) && old(self).now().generation < u64::MAX ==> r is Ok
                && final(self).now().generation == old(self).now().generation + 1
                && !final(self).is_input(key)
                && !final(self).is_computed(key)
                && final(self).stamp_of(key) == MemoStamp::fresh_spec(final(self).now())
                && final(self).sources_of(key) == sources@
                && final(self).factor_of(key) == factor,
            old(self).consistent() ==> final(self).consistent(),
            old(self).none_recovered() ==> final(self).none_recovered(),
            final(self).same_keys_as(*old(self)),
            final(self).same_recipes_except(*old(self), key),
            forall|k: DatabaseKeyIndex| #[trigger] old(self).valid_key(k) ==> final(self).valid_key(k)
                && final(self).resolve(k) == old(self).resolve(k)
                && (old(self).resolve(k) != old(self).resolve(key) ==> final(self).value_of(k) == old(self).value_of(k)
                    && final(self).stamp_of(k) == old(self).stamp_of(k)
                    && final(self).is_input(k) == old(self).is_input(k)
                    && final(self).is_computed(k) == old(self).is_computed(k)),
    {
        let id = self.resolve_exec(key);
        if self.derived_recipe(id).is_none() {
            return Err(UpdateError::NotDerived);
        }
        if self.clock.current().generation == u64::MAX {
            return Err(UpdateError::RevisionsExhausted);
        }
        let ghost pre = *self;
        proof {
            assert(pre.wf_slot(id as int));
        }
        let now = self.clock.advance();
        let value = self.slots[id].value;
        self.slots.set(id, Slot { key, value, computed: false, recovered: false, stamp: MemoStamp::fresh(now), deps: Vec::new() });
        self.recipes.set(id, Recipe::Derived { sources, factor, fallback });
        proof {
            assert forall|k: DatabaseKeyIndex| #[trigger] self.valid_key(k) implies 0 <= self.resolve(k) < self.slots.len()
                && self.slots[self.resolve(k)].key == k by {
                assert(pre.valid_key(k));
            }
            assert forall|i: int| 0 <= i < self.slots.len() implies self.valid_key(#[trigger] self.slots[i].key)
                && self.resolve(self.slots[i].key) == i by {
                assert(pre.valid_key(pre.slots[i].key));
            }
            assert forall|i: int| 0 <= i < self.slots.len() implies #[trigger] self.wf_slot(i) by {
                assert(pre.wf_slot(i));
            }
            if pre.consistent() {
                Self::lemma_advance_keeps_consistent(pre, *self, id as int);
            }
        }
        Ok(())
    }
}


impl Database {
    /// A database with one group per plan, in order: group `i` is named after
    /// plan `i`. `None` when there are more plans than group indices.
    pub fn from_plans(plans: &Vec<GroupPlan>) -> (r: Option<Database>)
        ensures
            plans.len() > 0x10000 <==> r is None,
            r matches Some(db) ==> {
                &&& db.wf()
                &&& db.ordered()
                &&& db.consistent()
                &&& db.none_recovered()
                &&& db.now() == Revision::start_spec()
                &&& db.slot_count() == 0
                &&& db.group_count() == plans.len()
                &&& forall|g: int| 0 <= g < plans.len() ==> #[trigger] db.group_name_of(g) == plans[g].name@
                    && db.query_count(g) == 0
            },
    {
        if plans.len() > 0x10000 {
            return None;
        }
        let mut db = Database::new();
        let mut i: usize = 0;
        while i < plans.len()
            invariant
                plans.len() <= 0x10000,
                i <= plans.len(),
                db.wf(),
                db.ordered(),
                db.consistent(),
                db.none_recovered(),
                db.now() == Revision::start_spec(),
                db.slot_count() == 0,
                db.group_count() == i,
                forall|g: int| 0 <= g < i ==> #[trigger] db.group_name_of(g) == plans[g].name@ && db.query_count(g) == 0,
            decreases plans.len() - i,
        {
            let ghost before = db;
            let added = db.add_group(plans[i].name.clone());
            proof {
                assert forall|g: int| 0 <= g < i + 1 implies #[trigger] db.group_name_of(g) == plans[g].name@
                    && db.query_count(g) == 0 by {
                    if g < i {
                        assert(db.group(g) == before.group(g));
                        assert(before.group_name_of(g) == plans[g].name@);
                    }
                }
            }
            i = i + 1;
        }
        Some(db)
    }
}

} // verus!
