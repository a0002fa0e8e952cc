use sparkle::component::{ComponentMapper, DefaultStore};
use sparkle::entity::MetaEntity;

struct DummyComponent;

const DUMMY_INDEX: usize = 0;

#[test]
fn test_component_insertion() {
    let mut store_map = ComponentMapper::new();

    for entity in 0..100 {
        let mut mentity = MetaEntity::new(entity);
        store_map.insert(&mut mentity, DUMMY_INDEX, DummyComponent);
        assert!(store_map.try_get(entity, DUMMY_INDEX).is_some());
    }
}

#[test]
fn test_component_suppression() {
    let mut store_map = ComponentMapper::new();

    for entity in 0..100 {
        let mut mentity = MetaEntity::new(entity);
        store_map.insert(&mut mentity, DUMMY_INDEX, DummyComponent);
        store_map.remove(&mut mentity, DUMMY_INDEX);

        assert!(store_map.try_get(entity, DUMMY_INDEX).is_none());
    }
}

#[test]
fn test_has_component() {
    let mut store_map = ComponentMapper::new();

    for entity in 0..100 {
        let mut mentity = MetaEntity::new(entity);
        store_map.insert(&mut mentity, DUMMY_INDEX, DummyComponent);

        assert!(store_map.has_component(entity, DUMMY_INDEX));
        assert!(mentity.components.contains(DUMMY_INDEX));
    }
}

#[test]
fn component_insert_sets_mask_bit() {
    let mut mapper = ComponentMapper::new();
    let mut mentity = MetaEntity::new(5);

    mapper.insert(&mut mentity, 3, 41u32);
    assert!(mentity.components.contains(3));
    assert!(!mentity.components.contains(2));

    mapper.remove(&mut mentity, 3);
    assert!(!mentity.components.contains(3));
}

#[test]
fn component_insert_overwrites() {
    let mut mapper = ComponentMapper::new();
    let mut mentity = MetaEntity::new(1);

    mapper.insert(&mut mentity, 0, 10u32);
    mapper.insert(&mut mentity, 0, 20u32);
    assert_eq!(mapper.try_get(1, 0), Some(&20));
    assert_eq!(*mapper.get(1, 0), 20);
}

#[test]
fn component_get_mut_updates_value() {
    let mut mapper = ComponentMapper::new();
    let mut mentity = MetaEntity::new(2);

    mapper.insert(&mut mentity, 1, 7u32);
    *mapper.get_mut(2, 1) = 9;
    assert_eq!(mapper.try_get(2, 1), Some(&9));
}

#[test]
fn component_remove_all_clears_every_table() {
    let mut mapper = ComponentMapper::new();
    let mut mentity = MetaEntity::new(4);

    mapper.insert(&mut mentity, 0, 1u32);
    mapper.insert(&mut mentity, 2, 2u32);
    mapper.remove_all(&mut mentity);

    assert!(mapper.try_get(4, 0).is_none());
    assert!(mapper.try_get(4, 2).is_none());
    assert!(!mentity.components.contains(0));
    assert!(!mentity.components.contains(2));
}

#[test]
fn component_forget_leaves_record_bits() {
    let mut mapper = ComponentMapper::new();
    let mut mentity = MetaEntity::new(6);

    mapper.insert(&mut mentity, 1, 11u32);
    mapper.forget(&mentity);

    assert!(mapper.try_get(6, 1).is_none());
    assert!(mentity.components.contains(1));
}

#[test]
fn default_store_round_trip() {
    let mut store: DefaultStore<u8> = DefaultStore::new();
    store.insert(3, 7);
    assert_eq!(store.try_get(3), Some(&7));
    assert_eq!(*store.get(3), 7);
    *store.get_mut(3) = 8;
    assert_eq!(store.try_get(3), Some(&8));
    store.remove(3);
    assert_eq!(store.try_get(3), None);
}

#[test]
fn component_ensure_is_idempotent() {
    let mut mapper: ComponentMapper<u8> = ComponentMapper::new();
    mapper.ensure(2);
    mapper.ensure(2);
    assert!(mapper.get_store(2).is_some());
    assert!(mapper.get_store(1).is_none());
    assert!(mapper.try_get(0, 2).is_none());
}
