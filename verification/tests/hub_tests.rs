use mesh_relay::hub::BroadcastHub;
use mesh_relay::hub::RecvOutcome;
use mesh_relay::message::MeshMessage;

fn msg(id: &str, payload: &str, timestamp: u64) -> MeshMessage {
    MeshMessage {
        id: String::from(id),
        source: String::from("n1"),
        destination: String::from("n2"),
        payload: String::from(payload),
        timestamp,
    }
}

fn expect_message(r: RecvOutcome) -> MeshMessage {
    match r {
        RecvOutcome::Message(m) => m,
        RecvOutcome::Lagged => panic!("expected a message, got Lagged"),
        RecvOutcome::Pending => panic!("expected a message, got Pending"),
        RecvOutcome::Closed => panic!("expected a message, got Closed"),
    }
}

#[test]
fn fan_out_reaches_both_subscribers() {
    let mut hub = BroadcastHub::new();
    let s1 = hub.subscribe();
    let s2 = hub.subscribe();

    hub.publish(&msg("a", "hello", 1));

    let m1 = expect_message(hub.receive(&s1));
    assert_eq!(m1.id, "a");
    assert_eq!(m1.payload, "hello");
    let m2 = expect_message(hub.receive(&s2));
    assert_eq!(m2.id, "a");
    assert_eq!(m2.payload, "hello");

    assert!(matches!(hub.receive(&s1), RecvOutcome::Pending));
    assert!(matches!(hub.receive(&s2), RecvOutcome::Pending));
}

#[test]
fn slow_subscriber_lags_while_fast_one_sees_everything() {
    let mut hub = BroadcastHub::new();
    let slow = hub.subscribe();
    let fast = hub.subscribe();

    for i in 0..150u64 {
        hub.publish(&msg(&format!("m{}", i), "p", i));
        // The fast subscriber keeps pace: it reads each record as it comes.
        let m = expect_message(hub.receive(&fast));
        assert_eq!(m.id, format!("m{}", i));
        assert_eq!(m.timestamp, i);
    }
    assert!(matches!(hub.receive(&fast), RecvOutcome::Pending));

    // The slow subscriber overflowed its queue of 100: it is told once
    // that it lagged, then reads the most recent 100 records in publish
    // order.
    assert!(matches!(hub.receive(&slow), RecvOutcome::Lagged));
    for i in 50..150u64 {
        let m = expect_message(hub.receive(&slow));
        assert_eq!(m.id, format!("m{}", i));
        assert_eq!(m.timestamp, i);
    }
    assert!(matches!(hub.receive(&slow), RecvOutcome::Pending));
}

#[test]
fn late_subscriber_gets_no_backlog() {
    let mut hub = BroadcastHub::new();
    hub.publish(&msg("before", "missed", 1));

    let s = hub.subscribe();
    assert!(matches!(hub.receive(&s), RecvOutcome::Pending));

    hub.publish(&msg("after", "seen", 2));
    let m = expect_message(hub.receive(&s));
    assert_eq!(m.id, "after");
    assert!(matches!(hub.receive(&s), RecvOutcome::Pending));
}

#[test]
fn overflow_reports_lagged_once_then_recent_records() {
    let mut hub = BroadcastHub::new();
    let s = hub.subscribe();

    for i in 0..150u64 {
        hub.publish(&msg(&format!("m{}", i), "p", i));
    }

    assert!(matches!(hub.receive(&s), RecvOutcome::Lagged));
    let mut seen: Vec<String> = Vec::new();
    for i in 50..150u64 {
        let m = expect_message(hub.receive(&s));
        assert_eq!(m.id, format!("m{}", i));
        assert!(!seen.contains(&m.id), "no duplicates");
        seen.push(m.id);
    }
    assert_eq!(seen.len(), 100);
    assert!(matches!(hub.receive(&s), RecvOutcome::Pending));
}

#[test]
fn exactly_at_capacity_no_lag() {
    let mut hub = BroadcastHub::new();
    let s = hub.subscribe();

    for i in 0..100u64 {
        hub.publish(&msg(&format!("m{}", i), "p", i));
    }
    for i in 0..100u64 {
        let m = expect_message(hub.receive(&s));
        assert_eq!(m.id, format!("m{}", i));
    }
    assert!(matches!(hub.receive(&s), RecvOutcome::Pending));
}

#[test]
fn one_over_capacity_drops_only_the_oldest() {
    let mut hub = BroadcastHub::new();
    let s = hub.subscribe();

    for i in 0..101u64 {
        hub.publish(&msg(&format!("m{}", i), "p", i));
    }
    assert!(matches!(hub.receive(&s), RecvOutcome::Lagged));
    for i in 1..101u64 {
        let m = expect_message(hub.receive(&s));
        assert_eq!(m.id, format!("m{}", i));
    }
    assert!(matches!(hub.receive(&s), RecvOutcome::Pending));
}

#[test]
fn unsubscribe_is_terminal_for_that_handle_only() {
    let mut hub = BroadcastHub::new();
    let s1 = hub.subscribe();
    let s2 = hub.subscribe();

    hub.publish(&msg("a", "p", 1));
    hub.unsubscribe(&s1);

    assert!(matches!(hub.receive(&s1), RecvOutcome::Closed));
    assert!(matches!(hub.receive(&s1), RecvOutcome::Closed));

    let m = expect_message(hub.receive(&s2));
    assert_eq!(m.id, "a");

    hub.publish(&msg("b", "p", 2));
    assert!(matches!(hub.receive(&s1), RecvOutcome::Closed));
    let m2 = expect_message(hub.receive(&s2));
    assert_eq!(m2.id, "b");
}

#[test]
fn publish_without_subscribers_is_a_noop() {
    let mut hub = BroadcastHub::new();
    hub.publish(&msg("a", "p", 1));
    hub.publish(&msg("b", "p", 2));

    let s = hub.subscribe();
    assert!(matches!(hub.receive(&s), RecvOutcome::Pending));
}

#[test]
fn receive_on_fresh_subscription_is_pending() {
    let mut hub = BroadcastHub::new();
    let s = hub.subscribe();
    assert!(matches!(hub.receive(&s), RecvOutcome::Pending));
    assert!(matches!(hub.receive(&s), RecvOutcome::Pending));
}
