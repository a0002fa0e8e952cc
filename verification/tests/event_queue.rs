use sparkle::entity::Entity;
use sparkle::event::{Kind, Queue};

#[test]
fn event_queue_changed() {
    let mut queue = Queue::new();

    queue.changed(0);
    let mut drained = queue.drain();
    assert_eq!(drained.pop(), Some((Kind::Changed, 0)));
}

#[test]
fn event_queue_changed_dup() {
    let mut queue = Queue::new();

    queue.changed(0);
    queue.changed(0);
    let mut drained = queue.drain();
    assert_eq!(drained.pop(), Some((Kind::Changed, 0)));
    assert_eq!(drained.pop(), None);
}

#[test]
fn event_queue_removed() {
    let mut queue = Queue::new();

    queue.removed(0);
    let mut drained = queue.drain();
    assert_eq!(drained.pop(), Some((Kind::Removed, 0)));
}

#[test]
fn event_queue_changed_when_removed() {
    let mut queue = Queue::new();

    queue.removed(0);
    queue.changed(0);
    let mut drained = queue.drain();
    assert_eq!(drained.pop(), Some((Kind::Removed, 0)));
    assert_eq!(drained.pop(), None);
}

#[test]
fn event_queue_drain() {
    let mut queue = Queue::new();

    queue.changed(0);
    queue.removed(1);
    queue.changed(2);
    queue.changed(3);

    let expected = [
        (Kind::Changed, 0),
        (Kind::Removed, 1),
        (Kind::Changed, 2),
        (Kind::Changed, 3),
    ];

    let drained: Vec<(Kind, Entity)> = queue.drain();
    assert_eq!(drained, expected);
    assert_eq!(queue.drain().len(), 0);
}

#[test]
fn event_queue_changed_after_removed_then_changed() {
    let mut queue = Queue::new();

    queue.changed(4);
    queue.removed(4);
    let drained = queue.drain();
    assert_eq!(drained, vec![(Kind::Changed, 4), (Kind::Removed, 4)]);
}

#[test]
fn event_queue_removed_dup() {
    let mut queue = Queue::new();

    queue.removed(9);
    queue.removed(9);
    let drained = queue.drain();
    assert_eq!(drained, vec![(Kind::Removed, 9)]);
}
