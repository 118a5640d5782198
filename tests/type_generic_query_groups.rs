use salsa_core::database::{CycleRecoveryStrategy, Database};

#[test]
fn type_generic_query_group_input_round_trip() {
    let mut db = Database::new();
    let group = db.add_group("TypeGenericQueryGroup".to_string()).unwrap();
    let input_query = db
        .add_query(group, "input".to_string(), CycleRecoveryStrategy::Panic)
        .unwrap();
    let multiplied_query = db
        .add_query(group, "multiplied_input".to_string(), CycleRecoveryStrategy::Panic)
        .unwrap();
    let input = db.add_input(group, input_query, 0).unwrap();
    let multiplied_input = db.add_derived(group, multiplied_query, vec![input], 3, 0).unwrap();

    db.set_input(input, 123).unwrap();
    assert_eq!(123, db.read(input).unwrap());
    assert_eq!(123 * 3, db.read(multiplied_input).unwrap());

    db.set_input(input, 456).unwrap();
    assert_eq!(456, db.read(input).unwrap());
    assert_eq!(456 * 3, db.read(multiplied_input).unwrap());
}
