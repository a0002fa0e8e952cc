use sparkle::pool::Pool;

#[test]
fn pool_regular_get() {
    let mut pool = Pool::new();
    for i in 0..10 {
        assert_eq!(pool.get().entity, i);
    }
}

#[test]
fn pool_put_and_get_recycled() {
    let mut pool = Pool::new();
    let recycled = pool.get();

    assert_eq!(recycled.entity, 0);
    assert_eq!(pool.get().entity, 1);
    pool.put(recycled);
    assert_eq!(pool.get().entity, 0);
    assert_eq!(pool.get().entity, 2);
}

#[test]
fn test_meta_entity_creation() {
    let mut pool = Pool::new();

    for i in 0..100 {
        assert_eq!(i, pool.get().entity);
    }
}

#[test]
fn test_meta_entity_reuse() {
    let mut pool = Pool::new();
    let dummy_component_index = 7;

    let mut mentity = pool.get();
    let entity = mentity.entity;

    mentity.components.insert(dummy_component_index);
    pool.put(mentity);

    let reused = pool.get();
    assert_eq!(entity, reused.entity);
    assert!(reused.components.is_empty());
}

#[test]
fn pool_recycles_most_recent_release_first() {
    let mut pool = Pool::new();
    let a = pool.get();
    let b = pool.get();
    let c = pool.get();
    assert_eq!((a.entity, b.entity, c.entity), (0, 1, 2));

    pool.put(a);
    pool.put(c);
    assert_eq!(pool.get().entity, 2);
    assert_eq!(pool.get().entity, 0);
    assert_eq!(pool.get().entity, 3);
    let _ = b;
}

#[test]
fn pool_reset_clears_tag_and_groups() {
    let mut pool = Pool::new();
    let mut m = pool.get();
    m.tag = Some("hero".to_string());
    m.groups.insert("allies");
    m.is_awake = false;
    pool.put(m);

    let reused = pool.get();
    assert_eq!(reused.tag, None);
    assert_eq!(reused.groups.len(), 0);
    assert!(reused.is_awake);
}
