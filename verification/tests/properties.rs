use sparkle::command::CommandBuffer;
use sparkle::entity::MetaEntity;
use sparkle::event::{Kind, Queue};
use sparkle::filter::{EntityFilter, EntityView, StandardEntityFilter};
use sparkle::mapper::EntityMapper;
use sparkle::pool::Pool;
use sparkle::system::SystemMapper;

#[derive(Debug, PartialEq, Clone, Copy)]
struct Marker(u8);

const MARKER_INDEX: usize = 0;

#[test]
fn pool_recycling_scenario() {
    let mut pool = Pool::new();
    let mut drawn = Vec::new();
    for i in 0..10 {
        let m = pool.get();
        assert_eq!(m.entity, i);
        drawn.push(m);
    }

    let mut third = drawn.swap_remove(3);
    third.components.insert(2);
    third.groups.insert("allies");
    pool.put(third);

    let reused = pool.get();
    assert_eq!(reused.entity, 3);
    assert!(reused.components.is_empty());
    assert_eq!(reused.groups.len(), 0);
    assert_eq!(reused.tag, None);
}

#[test]
fn event_dedup_many_changes_one_event() {
    let mut queue = Queue::new();
    for _ in 0..25 {
        queue.changed(6);
    }
    assert_eq!(queue.drain(), vec![(Kind::Changed, 6)]);
}

#[test]
fn event_changed_then_removed_both_delivered_in_order() {
    let mut queue = Queue::new();
    queue.changed(5);
    queue.changed(5);
    queue.removed(5);
    queue.changed(5);
    assert_eq!(queue.drain(), vec![(Kind::Changed, 5), (Kind::Removed, 5)]);
}

#[test]
fn drain_exhaustion() {
    let mut queue = Queue::new();
    queue.changed(0);
    queue.removed(1);
    assert_eq!(queue.drain().len(), 2);
    assert_eq!(queue.drain(), Vec::<(Kind, usize)>::new());

    // The dedup state is cleared too: the same events can be queued again.
    queue.changed(0);
    assert_eq!(queue.drain(), vec![(Kind::Changed, 0)]);
}

#[test]
fn filter_correctness_over_sampled_masks() {
    // All filters over the component indices {0, 1} against all masks over
    // the indices {0, 1, 2}: pass iff mandatory is a subset of the mask and
    // forbidden is disjoint from it.
    for mandatory_bits in 0u8..4 {
        for forbidden_bits in 0u8..4 {
            let mut filter = StandardEntityFilter::new();
            for i in 0..2 {
                if mandatory_bits & (1 << i) != 0 {
                    filter.require_component(i);
                }
                if forbidden_bits & (1 << i) != 0 {
                    filter.forbid_component(i);
                }
            }
            for mask_bits in 0u8..8 {
                let mut m = MetaEntity::new(0);
                for i in 0..3 {
                    if mask_bits & (1 << i) != 0 {
                        m.components.insert(i);
                    }
                }
                let expected = (mandatory_bits & mask_bits & 3) == (mandatory_bits & 3)
                    && (forbidden_bits & mask_bits & 3) == 0;
                assert_eq!(filter.pass(&m), expected);
            }
        }
    }
}

/// Replays a scripted sequence of mutations against an incrementally
/// maintained view and an independent full rescan, asserting equality after
/// every step.
#[test]
fn view_incrementality_matches_full_rescan() {
    let mut em: EntityMapper<Marker> = EntityMapper::new();
    let mut filter = StandardEntityFilter::new();
    filter.require_component(MARKER_INDEX);
    filter.forbid_group("hidden");

    let mut view = EntityView::new(filter);

    let a = em.create_entity();
    let b = em.create_entity();
    let c = em.create_entity();

    let script: Vec<Box<dyn Fn(&mut EntityMapper<Marker>)>> = vec![
        Box::new(move |em| em.attach_component(a, MARKER_INDEX, Marker(1))),
        Box::new(move |em| em.attach_component(b, MARKER_INDEX, Marker(2))),
        Box::new(move |em| em.set_group(b, "hidden")),
        Box::new(move |em| em.attach_component(c, MARKER_INDEX, Marker(3))),
        Box::new(move |em| em.detach_component(a, MARKER_INDEX)),
        Box::new(move |em| em.unset_group(b, "hidden")),
        Box::new(move |em| em.remove_entity(c)),
        Box::new(move |em| em.attach_component(a, MARKER_INDEX, Marker(4))),
        Box::new(move |em| em.remove_entity(a)),
    ];

    let mut live = vec![a, b, c];
    for (idx, step) in script.iter().enumerate() {
        step(&mut em);
        em.notify_events(&mut view);

        // The script removes c at its seventh step and a at its ninth; once
        // the removal has been delivered, the entity is no longer part of
        // the world that a rescan would walk.
        if idx == 6 {
            live.retain(|&e| e != c);
        }
        if idx == 8 {
            live.retain(|&e| e != a);
        }

        // Full rescan: an entity is expected in the view exactly when it is
        // still live and its current record passes the filter.
        let rescan: Vec<usize> = live
            .iter()
            .copied()
            .filter(|&e| {
                em.get_component(e, MARKER_INDEX).is_some()
                    && !em.get_group("hidden").contains(&e)
            })
            .collect();
        let viewed = view.to_vec();
        for e in &rescan {
            assert!(viewed.contains(e), "missing entry for {e}");
        }
        for e in &viewed {
            assert!(rescan.contains(e), "stale entry for {e}");
        }
    }
}

#[test]
fn command_ordering() {
    let mut buffer: CommandBuffer<&str> = CommandBuffer::new();
    // Senders all feed the same buffer; issuance order is what counts.
    buffer.push("c1");
    buffer.push("c2");
    buffer.push("c3");

    assert_eq!(buffer.pop(), Some("c1"));
    assert_eq!(buffer.pop(), Some("c2"));
    assert_eq!(buffer.pop(), Some("c3"));
    assert_eq!(buffer.pop(), None);
}

/// The end-to-end scenario: a component whose owner does not exist yet, one
/// tick per phase, and the entity's id only becomes reusable after the
/// explicit removal has been delivered.
#[test]
fn end_to_end_owner_scenario() {
    #[derive(Debug, PartialEq, Clone, Copy)]
    struct OwnedBy {
        owner: usize,
    }

    let mut em: EntityMapper<OwnedBy> = EntityMapper::new();
    let mut filter = StandardEntityFilter::new();
    filter.require_component(MARKER_INDEX);
    let mut view = EntityView::new(filter);

    let a = em.create_entity();
    let b_not_yet_existing = 999;
    em.attach_component(a, MARKER_INDEX, OwnedBy { owner: b_not_yet_existing });

    // One tick: the system's view must report A.
    em.notify_events(&mut view);
    assert!(view.contains(a));
    assert_eq!(view.to_vec(), vec![a]);

    // Detach; after the next tick A is out of the view but its record lives.
    em.detach_component(a, MARKER_INDEX);
    em.notify_events(&mut view);
    assert!(!view.contains(a));
    assert_eq!(em.get_mentity(a).entity, a);

    // Only the explicit removal, once delivered, frees the id for reuse.
    em.remove_entity(a);
    em.notify_events(&mut view);
    let reborn = em.create_entity();
    assert_eq!(reborn, a);
}

#[test]
fn system_mapper_keeps_registration_order() {
    let mut sm = SystemMapper::new();
    sm.insert(10);
    sm.insert(20);
    sm.insert(30);
    assert_eq!(sm.len(), 3);
    assert_eq!(sm.slot_at(0).id, 10);
    assert_eq!(sm.slot_at(1).id, 20);
    assert_eq!(sm.slot_at(2).id, 30);

    sm.remove(20);
    assert_eq!(sm.len(), 2);
    assert_eq!(sm.slot_at(0).id, 10);
    assert_eq!(sm.slot_at(1).id, 30);
}

#[test]
fn system_mapper_sleep_and_wake() {
    let mut sm = SystemMapper::new();
    sm.insert(1);
    sm.insert(2);
    assert!(sm.slot_at(0).is_awake);
    assert!(sm.slot_at(1).is_awake);

    sm.put_to_sleep(2);
    assert!(sm.slot_at(0).is_awake);
    assert!(!sm.slot_at(1).is_awake);

    sm.wake_up(2);
    assert!(sm.slot_at(1).is_awake);
}
