use mesh_relay::hub::BroadcastHub;
use mesh_relay::hub::RecvOutcome;
use mesh_relay::message::MeshMessage;
use mesh_relay::store::MessageStore;

fn msg(id: &str, payload: &str, timestamp: u64) -> MeshMessage {
    MeshMessage {
        id: String::from(id),
        source: String::from("n1"),
        destination: String::from("n2"),
        payload: String::from(payload),
        timestamp,
    }
}

// The write path of the relay: a producer stores the record and then
// publishes the same record to the live feed.
#[test]
fn write_path_updates_store_and_feed() {
    let mut store = MessageStore::new();
    let mut hub = BroadcastHub::new();
    let s = hub.subscribe();

    let record = msg("a", "hello", 1000);
    store.put(record.clone());
    hub.publish(&record);

    let stored = store.get(&String::from("a")).expect("record under \"a\"");
    assert_eq!(stored.payload, "hello");

    match hub.receive(&s) {
        RecvOutcome::Message(m) => {
            assert_eq!(m.id, "a");
            assert_eq!(m.payload, "hello");
            assert_eq!(m.timestamp, 1000);
        }
        _ => panic!("the live feed should carry the stored record"),
    }
}

// An overwrite reaches the feed as a second, independent record: the
// store keeps only the newest one, the feed delivers both in order.
#[test]
fn overwrite_streams_both_versions() {
    let mut store = MessageStore::new();
    let mut hub = BroadcastHub::new();
    let s = hub.subscribe();

    let first = msg("a", "old", 1);
    store.put(first.clone());
    hub.publish(&first);
    let second = msg("a", "new", 2);
    store.put(second.clone());
    hub.publish(&second);

    assert_eq!(store.list().len(), 1);
    assert_eq!(
        store.get(&String::from("a")).expect("record under \"a\"").payload,
        "new"
    );

    match hub.receive(&s) {
        RecvOutcome::Message(m) => assert_eq!(m.payload, "old"),
        _ => panic!("first publish should be delivered"),
    }
    match hub.receive(&s) {
        RecvOutcome::Message(m) => assert_eq!(m.payload, "new"),
        _ => panic!("second publish should be delivered"),
    }
}
