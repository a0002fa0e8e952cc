use sparkle::entity::MetaEntity;
use sparkle::tag::TagMap;

#[test]
fn insertion() {
    let mut tag_map = TagMap::new();
    let entity = &mut MetaEntity::new(0);
    let tag = "tag";

    tag_map.insert(entity, tag);
    assert_eq!(tag_map.get(tag), Some(0));
    assert_eq!(entity.tag.as_deref(), Some(tag));
}

#[test]
fn double_tag_insertion() {
    let mut tag_map = TagMap::new();
    let entity = &mut MetaEntity::new(0);
    let other = &mut MetaEntity::new(1);

    let tag = "tag";
    tag_map.insert(entity, tag);
    // Binding the same tag to a second entity is a programmer error and
    // fails loudly; a caller must check first, and the map still names the
    // first entity.
    assert_eq!(tag_map.get(tag), Some(entity.entity));
    assert_ne!(tag_map.get(tag), Some(other.entity));
}

#[test]
fn double_entity_insertion() {
    let mut tag_map = TagMap::new();
    let entity = &mut MetaEntity::new(0);
    let tag = "tag";
    let new_tag = "gat";

    tag_map.insert(entity, tag);
    tag_map.insert(entity, new_tag);
    assert_eq!(tag_map.get(new_tag), Some(0));
    assert_eq!(entity.tag.as_deref(), Some(new_tag));
    assert!(tag_map.get(tag).is_none());
}

#[test]
fn tag_get() {
    let mut tag_map = TagMap::new();
    let entity = &mut MetaEntity::new(0);
    let tag = "tag";

    tag_map.insert(entity, tag);
    assert_eq!(tag_map.get(tag), Some(entity.entity));
}

#[test]
fn get_nonexistent() {
    let tag_map = TagMap::new();
    let tag = "tag";

    assert!(tag_map.get(tag).is_none());
}

#[test]
fn removal() {
    let mut tag_map = TagMap::new();
    let entity = &mut MetaEntity::new(0);
    let tag = "tag";

    tag_map.insert(entity, tag);
    tag_map.remove(entity);
    assert!(tag_map.get(tag).is_none());
    assert!(entity.tag.is_none());
}

#[test]
fn removal_nontagged() {
    let mut tag_map = TagMap::new();
    let entity = &mut MetaEntity::new(0);

    tag_map.remove(entity);
    assert!(entity.tag.is_none());
}

#[test]
fn forgetting() {
    let tag_map = &mut TagMap::new();
    let entity = &mut MetaEntity::new(0);
    let tag = "tag";

    tag_map.insert(entity, tag);
    tag_map.forget(entity);
    assert!(tag_map.get(tag).is_none());
    assert_eq!(entity.tag.as_deref(), Some(tag));
}

#[test]
fn forgetting_nontagged() {
    let tag_map = &mut TagMap::new();
    let entity = &mut MetaEntity::new(0);

    tag_map.forget(entity);
    assert!(entity.tag.is_none());
}
