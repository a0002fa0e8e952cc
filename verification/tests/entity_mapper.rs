use sparkle::filter::{EntityView, StandardEntityFilter};
use sparkle::event::{Kind, Observer};
use sparkle::mapper::EntityMapper;

#[derive(Debug, PartialEq, Clone, Copy)]
struct Owner(usize);

const OWNER_INDEX: usize = 0;

/// An observer that only records which notifications arrived, in order.
struct Log {
    seen: Vec<(Kind, usize)>,
}

impl Observer for Log {
    fn notify_changed(&mut self, mentity: &sparkle::entity::MetaEntity) {
        self.seen.push((Kind::Changed, mentity.entity));
    }

    fn notify_removed(&mut self, mentity: &sparkle::entity::MetaEntity) {
        self.seen.push((Kind::Removed, mentity.entity));
    }
}

#[test]
fn create_assigns_sequential_ids() {
    let mut em: EntityMapper<Owner> = EntityMapper::new();
    assert_eq!(em.create_entity(), 0);
    assert_eq!(em.create_entity(), 1);
    assert_eq!(em.create_entity(), 2);
}

#[test]
fn components_through_the_mapper() {
    let mut em: EntityMapper<Owner> = EntityMapper::new();
    let a = em.create_entity();

    assert!(em.get_component(a, OWNER_INDEX).is_none());
    em.attach_component(a, OWNER_INDEX, Owner(7));
    assert_eq!(em.get_component(a, OWNER_INDEX), Some(&Owner(7)));
    assert!(em.get_mentity(a).components.contains(OWNER_INDEX));

    em.detach_component(a, OWNER_INDEX);
    assert!(em.get_component(a, OWNER_INDEX).is_none());
    assert!(!em.get_mentity(a).components.contains(OWNER_INDEX));
}

#[test]
fn groups_through_the_mapper() {
    let mut em: EntityMapper<Owner> = EntityMapper::new();
    let a = em.create_entity();
    let b = em.create_entity();

    em.set_group(a, "allies");
    em.set_group(b, "allies");
    assert_eq!(em.get_group("allies"), vec![a, b]);

    em.unset_group(a, "allies");
    assert_eq!(em.get_group("allies"), vec![b]);

    em.set_group(b, "mages");
    em.clear_entity_groups(b);
    assert_eq!(em.get_group("allies"), Vec::<usize>::new());
    assert_eq!(em.get_group("mages"), Vec::<usize>::new());
}

#[test]
fn tags_through_the_mapper() {
    let mut em: EntityMapper<Owner> = EntityMapper::new();
    let a = em.create_entity();

    assert!(em.try_get_tag("hero").is_none());
    let previous = em.set_tag(a, "hero");
    assert_eq!(previous, None);
    assert_eq!(em.try_get_tag("hero"), Some(a));
    assert_eq!(em.get_tag("hero"), a);

    let previous = em.set_tag(a, "villain");
    assert_eq!(previous, Some("hero".to_string()));
    assert!(em.try_get_tag("hero").is_none());
    assert_eq!(em.try_get_tag("villain"), Some(a));

    em.unset_tag(a);
    assert!(em.try_get_tag("villain").is_none());
}

#[test]
fn wake_and_sleep_flip_the_record_flag() {
    let mut em: EntityMapper<Owner> = EntityMapper::new();
    let a = em.create_entity();

    assert!(em.get_mentity(a).is_awake);
    em.put_to_sleep(a);
    assert!(!em.get_mentity(a).is_awake);
    em.wake_up(a);
    assert!(em.get_mentity(a).is_awake);
}

#[test]
fn notify_coalesces_changes_and_orders_removal_last() {
    let mut em: EntityMapper<Owner> = EntityMapper::new();
    let a = em.create_entity();
    em.attach_component(a, OWNER_INDEX, Owner(1));
    em.set_group(a, "allies");
    em.remove_entity(a);

    let mut log = Log { seen: Vec::new() };
    em.notify_events(&mut log);
    assert_eq!(log.seen, vec![(Kind::Changed, a), (Kind::Removed, a)]);
}

#[test]
fn removal_is_deferred_until_notification() {
    let mut em: EntityMapper<Owner> = EntityMapper::new();
    let a = em.create_entity();
    em.attach_component(a, OWNER_INDEX, Owner(2));
    em.set_tag(a, "hero");
    em.remove_entity(a);

    // The record, its component and its tag are still there.
    assert_eq!(em.get_mentity(a).entity, a);
    assert_eq!(em.get_component(a, OWNER_INDEX), Some(&Owner(2)));
    assert_eq!(em.try_get_tag("hero"), Some(a));

    let mut log = Log { seen: Vec::new() };
    em.notify_events(&mut log);

    // Now everything of the entity is gone, and its id is recycled.
    assert!(em.get_component(a, OWNER_INDEX).is_none());
    assert!(em.try_get_tag("hero").is_none());
    assert_eq!(em.create_entity(), a);
}

#[test]
fn a_view_fed_from_notifications_follows_the_filter() {
    let mut em: EntityMapper<Owner> = EntityMapper::new();
    let mut filter = StandardEntityFilter::new();
    filter.require_component(OWNER_INDEX);
    let mut view = EntityView::new(filter);

    let a = em.create_entity();
    em.attach_component(a, OWNER_INDEX, Owner(0));
    em.notify_events(&mut view);
    assert!(view.contains(a));

    em.detach_component(a, OWNER_INDEX);
    em.notify_events(&mut view);
    assert!(!view.contains(a));
}
