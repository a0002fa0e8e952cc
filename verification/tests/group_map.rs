use sparkle::entity::MetaEntity;
use sparkle::group::GroupMap;

#[test]
fn insert_in() {
    let mut group_map = GroupMap::new();
    let group_name = "aGroup";
    let mentity1 = &mut MetaEntity::new(0);
    let mentity2 = &mut MetaEntity::new(1);

    group_map.insert_in(mentity1, group_name);
    group_map.insert_in(mentity2, group_name);

    assert_eq!(1, mentity1.groups.len());
    assert_eq!(1, mentity2.groups.len());

    assert_eq!(group_name, mentity1.groups.index(0).as_str());
    assert_eq!(group_name, mentity2.groups.index(0).as_str());

    let group = group_map.get(group_name);
    assert_eq!(2, group.len());
}

#[test]
fn ensure() {
    let mut group_map = GroupMap::new();
    let group_name = "aGroup";

    group_map.ensure(group_name);

    assert_eq!(1, group_map.group_count());
}

#[test]
fn remove_from() {
    let mut group_map = GroupMap::new();
    let group_name = "aGroup";
    let mentity = &mut MetaEntity::new(0);

    group_map.insert_in(mentity, group_name);
    group_map.remove_from(mentity, group_name);

    assert_eq!(0, mentity.groups.len());

    let group = group_map.get(group_name);
    assert_eq!(0, group.len());
}

#[test]
fn clear_entity() {
    let mut group_map = GroupMap::new();
    let group_name1 = "aGroup1";
    let group_name2 = "aGroup2";
    let mentity = &mut MetaEntity::new(0);

    group_map.insert_in(mentity, group_name1);
    group_map.insert_in(mentity, group_name2);
    group_map.clear_entity(mentity);

    assert_eq!(0, mentity.groups.len());

    let group1 = group_map.get(group_name1);
    assert_eq!(0, group1.len());

    let group2 = group_map.get(group_name2);
    assert_eq!(0, group2.len());
}

#[test]
fn group_get() {
    let mut group_map = GroupMap::new();
    let group_name = "aGroup";
    let mentity = &mut MetaEntity::new(0);

    group_map.insert_in(mentity, group_name);

    let entities = group_map.get(group_name);
    let expected = vec![mentity.entity];

    assert_eq!(expected, entities);
}

#[test]
fn forget() {
    let mut group_map = GroupMap::new();
    let group_name1 = "aGroup1";
    let group_name2 = "aGroup2";
    let mentity = &mut MetaEntity::new(0);

    group_map.insert_in(mentity, group_name1);
    group_map.insert_in(mentity, group_name2);
    group_map.forget(mentity);

    let group1 = group_map.get(group_name1);
    assert_eq!(0, group1.len());

    let group2 = group_map.get(group_name2);
    assert_eq!(0, group2.len());
}
