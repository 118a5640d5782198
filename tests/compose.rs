use salsa_core::compose::{compose, group_name, plan_groups, ComposeError};
use salsa_core::database::{CycleRecoveryStrategy, Database};
use salsa_core::key::DatabaseKeyIndex;

#[test]
fn compose_plans_groups_in_order() {
    let plans = compose("TypeGenericQueryGroup, foo::bar::HelloWorld,").unwrap();
    assert_eq!(plans.len(), 2);
    assert_eq!(plans[0].name, "TypeGenericQueryGroup");
    assert_eq!(plans[0].field_name, "type_generic_query_group");
    assert_eq!(plans[0].group_index, 0);
    assert_eq!(plans[1].name, "HelloWorld");
    assert_eq!(plans[1].field_name, "hello_world");
    assert_eq!(plans[1].group_index, 1);
}

#[test]
fn compose_of_nothing_is_empty() {
    assert_eq!(compose("").unwrap().len(), 0);
}

#[test]
fn compose_rejects_bad_syntax() {
    assert_eq!(compose("a b").err(), Some(ComposeError::Syntax));
    assert_eq!(compose("1 + 2").err(), Some(ComposeError::Syntax));
}

#[test]
fn plan_rejects_too_many_groups() {
    let names: Vec<String> = (0..0x10001).map(|i| format!("G{}", i)).collect();
    assert_eq!(plan_groups(&names).err(), Some(ComposeError::TooManyGroups));
    let plans = plan_groups(&names[..3].to_vec()).unwrap();
    assert_eq!(plans[2].field_name, "g2");
}

#[test]
fn compose_names_generic_paths_by_their_last_segment() {
    let plans = compose("crate::groups::Storage<T, U>, Other").unwrap();
    assert_eq!(plans.len(), 2);
    assert_eq!(plans[0].name, "Storage");
    assert_eq!(plans[0].field_name, "storage");
    assert_eq!(plans[1].group_index, 1);
}

#[test]
fn group_name_is_the_last_segment() {
    assert_eq!(group_name(&vec!["a".to_string(), "B".to_string()]), Some("B".to_string()));
    assert_eq!(group_name(&vec![]), None);
}

#[test]
fn database_from_plans_names_groups_in_order() {
    let plans = compose("First, second::Second").unwrap();
    let mut db = Database::from_plans(&plans).unwrap();
    let q = db.add_query(1, "q".to_string(), CycleRecoveryStrategy::Panic).unwrap();
    let k = db.add_input(1, q, 9).unwrap();
    assert_eq!(k, DatabaseKeyIndex::new(1, 0, 0));
    let label = db.fmt_index(k);
    assert_eq!(label.group, "Second");
    assert_eq!(label.query, "q");
}
