use salsa_core::database::{CycleError, CycleRecoveryStrategy, Database, UpdateError};
use salsa_core::dependency::Dependency;
use salsa_core::key::DatabaseKeyIndex;
use salsa_core::revision::{Revision, RevisionClock};
use std::collections::hash_map::DefaultHasher;
use std::hash::{Hash, Hasher};

fn hash_of(d: &Dependency) -> u64 {
    let mut h = DefaultHasher::new();
    d.hash(&mut h);
    h.finish()
}

#[test]
fn clock_reads_and_advances_never_go_back() {
    let mut clock = RevisionClock::new();
    let mut last = clock.current();
    assert_eq!(last, Revision::start());
    for step in 0..10u64 {
        let r = if step % 3 == 0 { clock.current() } else { clock.advance() };
        assert!(r >= last);
        last = r;
    }
    assert_eq!(clock.current().as_u64(), 6);
}

#[test]
fn advance_returns_the_next_generation() {
    let mut clock = RevisionClock::new();
    assert_eq!(clock.advance().as_u64(), 1);
    assert_eq!(clock.advance().as_u64(), 2);
    assert_eq!(clock.current().as_u64(), 2);
    assert!(Revision { generation: 2 }.is_after(Revision { generation: 1 }));
    assert!(!Revision { generation: 1 }.is_after(Revision { generation: 1 }));
}

#[test]
fn end_to_end_recompute_and_firewall() {
    let mut db = Database::new();
    let g = db.add_group("Arith".to_string()).unwrap();
    let xq = db.add_query(g, "x".to_string(), CycleRecoveryStrategy::Panic).unwrap();
    let yq = db.add_query(g, "y".to_string(), CycleRecoveryStrategy::Panic).unwrap();
    let zq = db.add_query(g, "z".to_string(), CycleRecoveryStrategy::Panic).unwrap();
    let x = db.add_input(g, xq, 123).unwrap();
    let y = db.add_derived(g, yq, vec![x], 3, 0).unwrap();
    let z = db.add_derived(g, zq, vec![y], 1, 0).unwrap();
    assert_eq!(db.current_revision().as_u64(), 0);
    assert_eq!(db.read(y).unwrap(), 369);
    assert_eq!(db.read(z).unwrap(), 369);

    db.set_input(x, 456).unwrap();
    assert_eq!(db.current_revision().as_u64(), 1);
    assert_eq!(db.maybe_changed_after(x, Revision::start()), Ok(true));
    assert_eq!(db.read(y).unwrap(), 1368);
    assert_eq!(db.maybe_changed_after(y, Revision::start()), Ok(true));
    assert_eq!(db.read(z).unwrap(), 1368);

    // Setting the same value again is a no-op: the revision stays put.
    db.set_input(x, 456).unwrap();
    assert_eq!(db.current_revision().as_u64(), 1);
    assert_eq!(db.read(y).unwrap(), 1368);
    assert_eq!(db.maybe_changed_after(y, Revision { generation: 1 }), Ok(false));
    assert_eq!(db.maybe_changed_after(z, Revision { generation: 1 }), Ok(false));
}

#[test]
fn equal_recomputation_does_not_propagate() {
    let mut db = Database::new();
    let g = db.add_group("Firewall".to_string()).unwrap();
    let q = db.add_query(g, "q".to_string(), CycleRecoveryStrategy::Panic).unwrap();
    let a = db.add_input(g, q, 5).unwrap();
    // `zeroed` is always 0, whatever `a` holds.
    let zeroed = db.add_derived(g, q, vec![a], 0, 0).unwrap();
    let top = db.add_derived(g, q, vec![zeroed], 2, 0).unwrap();
    assert_eq!(db.read(top).unwrap(), 0);
    db.set_input(a, 6).unwrap();
    let now = db.current_revision();
    assert_eq!(now.as_u64(), 1);
    assert_eq!(db.read(top).unwrap(), 0);
    // `zeroed` was recomputed in revision 1 but still reports its old change.
    assert_eq!(db.maybe_changed_after(a, Revision::start()), Ok(true));
    assert_eq!(db.maybe_changed_after(zeroed, Revision::start()), Ok(false));
    assert_eq!(db.maybe_changed_after(top, Revision::start()), Ok(false));
    let edge = Dependency::new(zeroed);
    assert_eq!(edge.maybe_changed_since(&mut db, Revision::start()), Ok(false));
}

#[test]
fn unchanged_inputs_leave_derived_values_unchanged() {
    let mut db = Database::new();
    let g = db.add_group("Sound".to_string()).unwrap();
    let q = db.add_query(g, "q".to_string(), CycleRecoveryStrategy::Panic).unwrap();
    let a = db.add_input(g, q, 1).unwrap();
    let b = db.add_input(g, q, 2).unwrap();
    let sum_a = db.add_derived(g, q, vec![a, a], 10, 0).unwrap();
    assert_eq!(db.read(sum_a).unwrap(), 20);
    db.set_input(b, 3).unwrap();
    assert_eq!(db.read(sum_a).unwrap(), 20);
    assert_eq!(db.maybe_changed_after(sum_a, Revision::start()), Ok(false));
    assert_eq!(db.maybe_changed_after(b, Revision::start()), Ok(true));
}

#[test]
fn derived_sum_wraps() {
    let mut db = Database::new();
    let g = db.add_group("Wrap".to_string()).unwrap();
    let q = db.add_query(g, "q".to_string(), CycleRecoveryStrategy::Panic).unwrap();
    let a = db.add_input(g, q, u64::MAX).unwrap();
    let b = db.add_input(g, q, 2).unwrap();
    let s = db.add_derived(g, q, vec![a, b], 3, 0).unwrap();
    assert_eq!(db.read(s).unwrap(), 3);
    let empty = db.add_derived(g, q, vec![], 7, 0).unwrap();
    assert_eq!(db.read(empty).unwrap(), 0);
}

#[test]
fn edges_compare_by_slot_identity() {
    let k1 = DatabaseKeyIndex::new(0, 1, 2);
    let k2 = DatabaseKeyIndex::new(0, 1, 3);
    let a = Dependency::new(k1);
    let b = Dependency::new(k1);
    let c = Dependency::new(k2);
    assert_eq!(a, b);
    assert_eq!(hash_of(&a), hash_of(&b));
    assert_ne!(a, c);
    assert_eq!(a.raw_slot(), k1);
}

#[test]
fn edges_to_slots_with_equal_values_differ() {
    let mut db = Database::new();
    let g = db.add_group("Same".to_string()).unwrap();
    let q = db.add_query(g, "q".to_string(), CycleRecoveryStrategy::Panic).unwrap();
    let a = db.add_input(g, q, 7).unwrap();
    let b = db.add_input(g, q, 7).unwrap();
    assert_eq!(db.read(a).unwrap(), db.read(b).unwrap());
    assert_ne!(Dependency::new(a), Dependency::new(b));
}

#[test]
fn dispatch_routes_to_the_key_group() {
    let mut db = Database::new();
    let g0 = db.add_group("G0".to_string()).unwrap();
    let g1 = db.add_group("G1".to_string()).unwrap();
    let g2 = db.add_group("G2".to_string()).unwrap();
    assert_eq!((g0, g1, g2), (0, 1, 2));
    let q0 = db.add_query(g0, "zero".to_string(), CycleRecoveryStrategy::Panic).unwrap();
    let q1 = db.add_query(g1, "one".to_string(), CycleRecoveryStrategy::Fallback).unwrap();
    let q2 = db.add_query(g2, "two".to_string(), CycleRecoveryStrategy::Panic).unwrap();
    let k0 = db.add_input(g0, q0, 10).unwrap();
    let k1 = db.add_input(g1, q1, 11).unwrap();
    let k2 = db.add_input(g2, q2, 12).unwrap();
    assert_eq!(k1, DatabaseKeyIndex::new(1, 0, 0));
    let label = db.fmt_index(k1);
    assert_eq!(label.group, "G1");
    assert_eq!(label.query, "one");
    assert_eq!(label.key_index, 0);
    assert_eq!(db.cycle_recovery_strategy(k1), CycleRecoveryStrategy::Fallback);
    assert_eq!(db.cycle_recovery_strategy(k0), CycleRecoveryStrategy::Panic);
    assert_eq!(db.read(k1).unwrap(), 11);
    db.set_input(k1, 21).unwrap();
    assert_eq!(db.maybe_changed_after(k1, Revision::start()), Ok(true));
    assert_eq!(db.maybe_changed_after(k0, Revision::start()), Ok(false));
    assert_eq!(db.maybe_changed_after(k2, Revision::start()), Ok(false));
    assert_eq!(db.for_each_query(), vec![(0, 0), (1, 0), (2, 0)]);
}

#[test]
fn mutual_cycle_with_fallback_recovers() {
    let mut db = Database::new();
    let g = db.add_group("Cycles".to_string()).unwrap();
    let qa = db.add_query(g, "a".to_string(), CycleRecoveryStrategy::Fallback).unwrap();
    let qb = db.add_query(g, "b".to_string(), CycleRecoveryStrategy::Fallback).unwrap();
    let a = db.add_derived(g, qa, vec![], 1, 7).unwrap();
    let b = db.add_derived(g, qb, vec![a], 1, 9).unwrap();
    db.redefine(a, vec![b], 1, 7).unwrap();
    assert_eq!(db.read(a), Ok(7));
    assert_eq!(db.read(b), Ok(9));
}

#[test]
fn mutual_cycle_from_the_other_side_recovers() {
    let mut db = Database::new();
    let g = db.add_group("Cycles".to_string()).unwrap();
    let qa = db.add_query(g, "a".to_string(), CycleRecoveryStrategy::Fallback).unwrap();
    let qb = db.add_query(g, "b".to_string(), CycleRecoveryStrategy::Fallback).unwrap();
    let a = db.add_derived(g, qa, vec![], 1, 7).unwrap();
    let b = db.add_derived(g, qb, vec![a], 1, 9).unwrap();
    db.redefine(a, vec![b], 1, 7).unwrap();
    assert_eq!(db.read(b), Ok(9));
    assert_eq!(db.read(a), Ok(7));
}

#[test]
fn cycle_without_recovery_fails() {
    let mut db = Database::new();
    let g = db.add_group("Cycles".to_string()).unwrap();
    let q = db.add_query(g, "a".to_string(), CycleRecoveryStrategy::Panic).unwrap();
    let a = db.add_derived(g, q, vec![], 1, 7).unwrap();
    db.redefine(a, vec![a], 1, 7).unwrap();
    assert_eq!(db.read(a), Err(CycleError { query: a }));
}

#[test]
fn update_errors() {
    let mut db = Database::new();
    let g = db.add_group("Errors".to_string()).unwrap();
    let q = db.add_query(g, "q".to_string(), CycleRecoveryStrategy::Panic).unwrap();
    let a = db.add_input(g, q, 1).unwrap();
    let d = db.add_derived(g, q, vec![a], 2, 0).unwrap();
    assert_eq!(db.set_input(d, 5), Err(UpdateError::NotAnInput));
    assert_eq!(db.redefine(a, vec![], 1, 0), Err(UpdateError::NotDerived));
    assert_eq!(db.read(d).unwrap(), 2);
    db.redefine(d, vec![a, a], 5, 0).unwrap();
    assert_eq!(db.read(d).unwrap(), 10);
}

#[test]
fn redefine_moves_the_clock_and_recomputes() {
    let mut db = Database::new();
    let g = db.add_group("Redefine".to_string()).unwrap();
    let q = db.add_query(g, "q".to_string(), CycleRecoveryStrategy::Panic).unwrap();
    let a = db.add_input(g, q, 4).unwrap();
    let b = db.add_input(g, q, 5).unwrap();
    let d = db.add_derived(g, q, vec![a], 2, 0).unwrap();
    let top = db.add_derived(g, q, vec![d], 1, 0).unwrap();
    assert_eq!(db.read(top).unwrap(), 8);
    db.redefine(d, vec![b], 2, 0).unwrap();
    assert_eq!(db.current_revision().as_u64(), 1);
    assert_eq!(db.read(top).unwrap(), 10);
    assert_eq!(db.maybe_changed_after(top, Revision::start()), Ok(true));
}

#[test]
fn edge_asks_its_slot() {
    let mut db = Database::new();
    let g = db.add_group("Edges".to_string()).unwrap();
    let q = db.add_query(g, "q".to_string(), CycleRecoveryStrategy::Panic).unwrap();
    let a = db.add_input(g, q, 1).unwrap();
    let d = db.add_derived(g, q, vec![a], 1, 0).unwrap();
    let edge = Dependency::new(d);
    assert_eq!(edge.maybe_changed_since(&mut db, Revision::start()), Ok(false));
    db.set_input(a, 2).unwrap();
    assert_eq!(edge.maybe_changed_since(&mut db, Revision::start()), Ok(true));
    assert_eq!(edge.maybe_changed_since(&mut db, Revision { generation: 1 }), Ok(false));
    assert_eq!(db.read(d).unwrap(), 2);
}

#[test]
fn cycle_fallback_holds_until_the_cycle_is_broken() {
    let mut db = Database::new();
    let g = db.add_group("Cycles".to_string()).unwrap();
    let q = db.add_query(g, "a".to_string(), CycleRecoveryStrategy::Fallback).unwrap();
    let x = db.add_input(g, q, 3).unwrap();
    let a = db.add_derived(g, q, vec![], 1, 7).unwrap();
    db.redefine(a, vec![a], 1, 7).unwrap();
    assert_eq!(db.read(a), Ok(7));
    db.redefine(a, vec![x], 5, 7).unwrap();
    assert_eq!(db.read(a), Ok(15));
}
