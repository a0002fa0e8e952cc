use sparkle::entity::MetaEntity;
use sparkle::filter::{EntityFilter, Filter, StandardEntityFilter};

const ACOMPONENT_INDEX: usize = 0;
const ANOTHER_COMPONENT_INDEX: usize = 1;

#[test]
fn test_filter_with_multiple_types() {
    let mut filter = Filter::new();
    filter.insert_mandatory(ACOMPONENT_INDEX);
    filter.insert_mandatory(ANOTHER_COMPONENT_INDEX);

    let mut dummy_entity = MetaEntity::new(0);

    dummy_entity.components.insert(ACOMPONENT_INDEX);
    dummy_entity.components.insert(ANOTHER_COMPONENT_INDEX);

    assert!(filter.check(&dummy_entity));

    dummy_entity.components.remove(ANOTHER_COMPONENT_INDEX);

    assert!(!filter.check(&dummy_entity));

    dummy_entity.components.remove(ACOMPONENT_INDEX);

    assert!(!filter.check(&dummy_entity));
}

#[test]
fn test_filter_with_no_types() {
    let filter = Filter::new();

    let mut dummy_entity = MetaEntity::new(0);

    assert!(filter.check(&dummy_entity));

    dummy_entity.components.remove(ACOMPONENT_INDEX);

    assert!(filter.check(&dummy_entity));
}

#[test]
fn standard_filter_mandatory_and_forbidden_components() {
    let mut filter = StandardEntityFilter::new();
    filter.require_component(0);
    filter.forbid_component(1);

    let mut m = MetaEntity::new(0);
    assert!(!filter.pass(&m));

    m.components.insert(0);
    assert!(filter.pass(&m));

    m.components.insert(1);
    assert!(!filter.pass(&m));

    m.components.remove(1);
    m.components.insert(5);
    assert!(filter.pass(&m));
}

#[test]
fn standard_filter_mandatory_and_forbidden_groups() {
    let mut filter = StandardEntityFilter::new();
    filter.require_group("allies");
    filter.forbid_group("ghosts");

    let mut m = MetaEntity::new(3);
    assert!(!filter.pass(&m));

    m.groups.insert("allies");
    assert!(filter.pass(&m));

    m.groups.insert("ghosts");
    assert!(!filter.pass(&m));

    m.groups.remove("ghosts");
    assert!(filter.pass(&m));
}

#[test]
fn empty_standard_filter_passes_everything() {
    let filter = StandardEntityFilter::new();
    let mut m = MetaEntity::new(9);
    m.components.insert(4);
    m.groups.insert("whatever");
    assert!(filter.pass(&m));
}
