use sparkle::record::{Record, Update};

#[test]
fn test_update_insertion() {
    let mut record = Record::new();
    let entity1 = 0;
    let entity2 = 2;
    let entity3 = 3;

    record.add(Update::new_created(entity1));
    record.add(Update::new_created(entity2));
    record.add(Update::new_created(entity3));

    let expected_update_count = 3;
    assert_eq!(expected_update_count, record.get_update_count());
}

#[test]
fn test_unique_updates_with_one_entity() {
    let mut record = Record::new();

    let entity = 0;
    record.add(Update::new_created(entity));
    record.add(Update::new_changed(entity));
    record.add(Update::new_removed(entity));

    let expected_update_count = 3;
    assert_eq!(expected_update_count, record.get_update_count());
}

#[test]
fn repeated_update_records_once() {
    let mut record = Record::new();

    record.add(Update::new_created(1));
    record.add(Update::new_created(1));
    record.add(Update::new_created(1));

    assert_eq!(1, record.get_update_count());
}
