use kardashev::chunk::Chunk;
use kardashev::events::{Event, EventQueue, EventType};

fn loaded(x: i32) -> Event {
    Event::ChunkLoaded((x, 0, 0), *Chunk::new_flat().blocks())
}

fn unloaded(x: i32) -> Event {
    Event::ChunkUnloaded((x, 0, 0))
}

fn summary(ds: &[(u64, Event)]) -> Vec<(u64, EventType, i32)> {
    ds.iter().map(|(l, e)| (*l, e.event_type(), e.position().0)).collect()
}

#[test]
fn event_kinds_and_names() {
    assert_eq!(loaded(1).event_type(), EventType::ChunkLoaded);
    assert_eq!(unloaded(1).event_type(), EventType::ChunkUnloaded);
    assert_eq!(loaded(1).name(), "ChunkLoaded");
    assert_eq!(unloaded(1).name(), "ChunkUnloaded");
    assert_eq!(unloaded(4).position(), (4, 0, 0));
}

#[test]
fn dispatch_with_no_listeners_drains() {
    let mut q = EventQueue::new();
    q.push_event(loaded(1));
    q.push_event(unloaded(2));
    assert_eq!(q.pending_count(), 2);
    let ds = q.dispatch_events();
    assert!(ds.is_empty());
    assert_eq!(q.pending_count(), 0);
}

#[test]
fn dispatch_on_empty_queue() {
    let mut q = EventQueue::new();
    q.register_handler(3, &vec![EventType::ChunkLoaded]);
    assert!(q.dispatch_events().is_empty());
    assert_eq!(q.pending_count(), 0);
}

#[test]
fn deliveries_follow_push_then_registration_order() {
    let mut q = EventQueue::new();
    q.register_handler(7, &vec![EventType::ChunkLoaded, EventType::ChunkUnloaded]);
    q.register_handler(2, &vec![EventType::ChunkLoaded]);
    q.register_handler(5, &vec![EventType::ChunkUnloaded]);
    q.push_event(loaded(1));
    q.push_event(unloaded(2));
    q.push_event(loaded(3));
    let ds = q.dispatch_events();
    assert_eq!(
        summary(&ds),
        vec![
            (7, EventType::ChunkLoaded, 1),
            (2, EventType::ChunkLoaded, 1),
            (7, EventType::ChunkUnloaded, 2),
            (5, EventType::ChunkUnloaded, 2),
            (7, EventType::ChunkLoaded, 3),
            (2, EventType::ChunkLoaded, 3),
        ]
    );
    assert_eq!(q.pending_count(), 0);
}

#[test]
fn registering_twice_does_not_duplicate_deliveries() {
    let mut q = EventQueue::new();
    q.register_handler(9, &vec![EventType::ChunkLoaded]);
    q.register_handler(9, &vec![EventType::ChunkLoaded, EventType::ChunkLoaded]);
    q.register_handler(4, &vec![EventType::ChunkLoaded]);
    q.register_handler(9, &vec![EventType::ChunkUnloaded]);
    assert_eq!(q.listeners_of(EventType::ChunkLoaded), &vec![9, 4]);
    assert_eq!(q.listeners_of(EventType::ChunkUnloaded), &vec![9]);
    q.push_event(loaded(1));
    assert_eq!(summary(&q.dispatch_events()), vec![(9, EventType::ChunkLoaded, 1), (4, EventType::ChunkLoaded, 1)]);
}

#[test]
fn deregistering_removes_from_every_kind() {
    let mut q = EventQueue::new();
    q.register_handler(1, &vec![EventType::ChunkLoaded, EventType::ChunkUnloaded]);
    q.register_handler(2, &vec![EventType::ChunkLoaded]);
    q.deregister_handler(1);
    assert_eq!(q.listeners_of(EventType::ChunkLoaded), &vec![2]);
    assert!(q.listeners_of(EventType::ChunkUnloaded).is_empty());
    q.deregister_handler(42);
    assert_eq!(q.listeners_of(EventType::ChunkLoaded), &vec![2]);
    q.push_event(unloaded(8));
    assert!(q.dispatch_events().is_empty());
    assert_eq!(q.pending_count(), 0);
}
