use simpy_rs::kernel::SimTime;
use simpy_rs::resources::{Released, RequestOutcome, Resource, ResourceManager};
use simpy_rs::SimError;

#[test]
fn request_takes_a_free_unit_or_queues() {
    let mut m = ResourceManager::new();
    m.create("desk", 2).unwrap();
    assert_eq!(
        m.request("desk", "a", SimTime::new(0)).unwrap(),
        RequestOutcome::Granted
    );
    assert_eq!(
        m.request("desk", "b", SimTime::new(1)).unwrap(),
        RequestOutcome::Granted
    );
    assert_eq!(
        m.request("desk", "c", SimTime::new(2)).unwrap(),
        RequestOutcome::Queued
    );
    let s = &m.get_stats()[0];
    assert_eq!(s.name, "desk");
    assert_eq!(s.capacity, 2);
    assert_eq!(s.available, 0);
    assert_eq!(s.in_use, 2);
    assert_eq!(s.queue_length, 1);
    assert_eq!(s.total_requests, 2);
    assert_eq!(s.total_wait_time, 0);
}

#[test]
fn release_hands_off_in_order_of_arrival() {
    let mut m = ResourceManager::new();
    m.create("desk", 1).unwrap();
    m.request("desk", "a", SimTime::new(0)).unwrap();
    m.request("desk", "b", SimTime::new(1)).unwrap();
    m.request("desk", "c", SimTime::new(2)).unwrap();
    m.request("desk", "d", SimTime::new(2)).unwrap();
    assert_eq!(
        m.release("desk", SimTime::new(5)).unwrap(),
        Released::HandedTo("b".to_string())
    );
    assert_eq!(
        m.release("desk", SimTime::new(6)).unwrap(),
        Released::HandedTo("c".to_string())
    );
    assert_eq!(
        m.release("desk", SimTime::new(9)).unwrap(),
        Released::HandedTo("d".to_string())
    );
    assert_eq!(m.release("desk", SimTime::new(9)).unwrap(), Released::Freed);
    assert_eq!(m.release("desk", SimTime::new(9)).unwrap(), Released::NotHeld);
    let s = &m.get_stats()[0];
    assert_eq!(s.available, 1);
    assert_eq!(s.queue_length, 0);
    assert_eq!(s.total_requests, 4);
    // b waited 4, c waited 4, d waited 7
    assert_eq!(s.total_wait_time, 15000);
}

#[test]
fn release_with_waiters_leaves_available_at_zero_and_unblocks_one() {
    let mut m = ResourceManager::new();
    m.create("desk", 1).unwrap();
    m.request("desk", "a", SimTime::new(0)).unwrap();
    m.request("desk", "b", SimTime::new(0)).unwrap();
    m.request("desk", "c", SimTime::new(0)).unwrap();
    let before = m.get_stats()[0].clone();
    let out = m.release("desk", SimTime::new(1)).unwrap();
    let after = m.get_stats()[0].clone();
    assert_eq!(out, Released::HandedTo("b".to_string()));
    assert_eq!(before.available, 0);
    assert_eq!(after.available, 0);
    assert_eq!(after.queue_length, before.queue_length - 1);
}

#[test]
fn available_stays_within_capacity() {
    let mut m = ResourceManager::new();
    m.create("pool", 3).unwrap();
    let mut step = 0;
    while step < 40 {
        if step % 3 == 2 {
            m.release("pool", SimTime::new(step)).unwrap();
        } else {
            m.request("pool", "p", SimTime::new(step)).unwrap();
        }
        let s = &m.get_stats()[0];
        assert!(s.available <= s.capacity);
        assert!(s.queue_length == 0 || s.available == 0);
        assert_eq!(s.in_use, s.capacity - s.available);
        step += 1;
    }
}

#[test]
fn unknown_and_duplicate_resources_are_errors() {
    let mut m = ResourceManager::new();
    m.create("a", 1).unwrap();
    assert!(matches!(m.create("a", 2), Err(SimError::ResourceError(_))));
    assert!(matches!(
        m.request("b", "p", SimTime::new(0)),
        Err(SimError::ResourceError(_))
    ));
    assert!(matches!(
        m.release("b", SimTime::new(0)),
        Err(SimError::ResourceError(_))
    ));
    assert!(matches!(
        m.queue_request("b", "p", SimTime::new(0)),
        Err(SimError::ResourceError(_))
    ));
    assert_eq!(m.len(), 1);
    assert_eq!(m.get_stats()[0].capacity, 1);
    assert!(m.contains("a"));
    assert!(!m.contains("b"));
}

#[test]
fn queue_request_needs_an_exhausted_resource() {
    let mut m = ResourceManager::new();
    m.create("a", 1).unwrap();
    assert!(matches!(
        m.queue_request("a", "p", SimTime::new(0)),
        Err(SimError::ResourceError(_))
    ));
    m.request("a", "q", SimTime::new(0)).unwrap();
    m.queue_request("a", "p", SimTime::new(3)).unwrap();
    assert_eq!(m.get_stats()[0].queue_length, 1);
    assert_eq!(
        m.release("a", SimTime::new(10)).unwrap(),
        Released::HandedTo("p".to_string())
    );
    assert_eq!(m.get_stats()[0].total_wait_time, 7000);
}

#[test]
fn resource_without_units_queues_everybody() {
    let mut r = Resource::new("none", 0);
    assert_eq!(r.request("a", SimTime::new(0)), RequestOutcome::Queued);
    assert_eq!(r.queue_length(), 1);
    assert_eq!(r.available(), 0);
    assert_eq!(r.capacity(), 0);
    assert_eq!(r.release(SimTime::new(2)), Released::HandedTo("a".to_string()));
    assert_eq!(r.release(SimTime::new(2)), Released::NotHeld);
    assert_eq!(r.total_requests(), 1);
    assert_eq!(r.total_wait_time(), 2000);
    assert_eq!(r.name(), "none");
}

#[test]
fn stats_come_in_order_of_creation() {
    let mut m = ResourceManager::new();
    m.create("z", 1).unwrap();
    m.create("a", 2).unwrap();
    m.create("m", 3).unwrap();
    let names: Vec<String> = m.get_stats().iter().map(|s| s.name.clone()).collect();
    assert_eq!(names, vec!["z", "a", "m"]);
}

#[test]
fn the_manager_takes_any_name_that_is_free() {
    let mut m = ResourceManager::new();
    m.create("", 2).unwrap();
    assert!(matches!(m.create("", 1), Err(SimError::ResourceError(_))));
    assert_eq!(
        m.request("", "p", SimTime::new(0)).unwrap(),
        RequestOutcome::Granted
    );
    assert_eq!(m.get_stats()[0].available, 1);
}
