use live_counter::hub::{Hub, PollResult};

#[test]
fn scenario_initial_snapshot_and_live_updates() {
    // Counter starts at 0. Client A subscribes and receives 0 as its first
    // value. Client B increments: the counter becomes 1 and A receives 1.
    // Client C subscribes after the increment and receives 1 as its first
    // value, not 0. Client B decrements: the counter becomes 0 and both A
    // and C receive 0.
    let mut hub = Hub::new(8);
    let (a, first_a) = hub.subscribe();
    assert_eq!(first_a, 0);

    let v = hub.increment();
    assert_eq!(v, 1);
    assert_eq!(hub.poll(a), PollResult::Delivered(1));

    let (c, first_c) = hub.subscribe();
    assert_eq!(first_c, 1);
    assert_eq!(hub.poll(c), PollResult::Empty);

    let v = hub.decrement();
    assert_eq!(v, 0);
    assert_eq!(hub.poll(a), PollResult::Delivered(0));
    assert_eq!(hub.poll(c), PollResult::Delivered(0));
}

#[test]
fn increments_and_decrements_sum() {
    let mut hub = Hub::new(4);
    for _ in 0..5 {
        hub.increment();
    }
    for _ in 0..3 {
        hub.decrement();
    }
    assert_eq!(hub.current(), 2);
}

#[test]
fn counter_wraps_at_max() {
    let mut hub = Hub::new(1);
    let v = hub.mutate(i32::MAX);
    assert_eq!(v, i32::MAX);
    let v = hub.increment();
    assert_eq!(v, i32::MIN);
}

#[test]
fn counter_wraps_at_min() {
    let mut hub = Hub::new(1);
    let v = hub.mutate(i32::MIN);
    assert_eq!(v, i32::MIN);
    let v = hub.decrement();
    assert_eq!(v, i32::MAX);
}

#[test]
fn values_arrive_in_publish_order() {
    let mut hub = Hub::new(8);
    let (s, first) = hub.subscribe();
    assert_eq!(first, 0);
    hub.increment();
    hub.increment();
    hub.decrement();
    assert_eq!(hub.poll(s), PollResult::Delivered(1));
    assert_eq!(hub.poll(s), PollResult::Delivered(2));
    assert_eq!(hub.poll(s), PollResult::Delivered(1));
    assert_eq!(hub.poll(s), PollResult::Empty);
}

#[test]
fn lagging_subscriber_is_evicted_not_waited_on() {
    // Bus capacity 2, like a small bounded channel: a subscriber that never
    // reads is dropped at the third publish, and the mutation path never
    // blocks on it.
    let mut hub = Hub::new(2);
    let (slow, _) = hub.subscribe();
    let (fast, _) = hub.subscribe();
    hub.increment();
    hub.increment();
    assert_eq!(hub.poll(fast), PollResult::Delivered(1));
    assert_eq!(hub.poll(fast), PollResult::Delivered(2));
    assert_eq!(hub.subscriber_count(), 2);
    hub.increment();
    // The slow receiver's buffer was full: it left the live set.
    assert_eq!(hub.poll(slow), PollResult::Closed);
    assert_eq!(hub.subscriber_count(), 1);
    // The fast receiver still gets every value, in order and without gaps.
    assert_eq!(hub.poll(fast), PollResult::Delivered(3));
    assert_eq!(hub.poll(fast), PollResult::Empty);
}

#[test]
fn unsubscribe_removes_receiver_from_live_set() {
    let mut hub = Hub::new(4);
    let (s, _) = hub.subscribe();
    assert_eq!(hub.subscriber_count(), 1);
    hub.unsubscribe(s);
    assert_eq!(hub.subscriber_count(), 0);
    assert_eq!(hub.poll(s), PollResult::Closed);
}

#[test]
fn connect_disconnect_cycles_do_not_grow_the_live_set() {
    let mut hub = Hub::new(4);
    for _ in 0..100 {
        let (s, _) = hub.subscribe();
        hub.increment();
        assert_eq!(hub.poll(s), PollResult::Delivered(hub.current()));
        hub.unsubscribe(s);
        assert_eq!(hub.subscriber_count(), 0);
    }
    assert_eq!(hub.current(), 100);
}

#[test]
fn poll_on_fresh_subscriber_is_empty() {
    let mut hub = Hub::new(4);
    let (s, first) = hub.subscribe();
    assert_eq!(first, 0);
    assert_eq!(hub.poll(s), PollResult::Empty);
}

#[test]
fn unknown_receiver_is_closed() {
    let mut hub = Hub::new(4);
    assert_eq!(hub.poll(7), PollResult::Closed);
}
