// Recovery by replay, and the batching of the log writer.
use redust::db::{Entry, Store, Timestamp};
use redust::persistence::{
    apply_command, render_batch, replay, restore_state, snapshot, LogWriter, QueueEvent,
    WriterAction, BATCH_WINDOW_MICROS, IDLE_PAUSE_MICROS, SNAPSHOT_PERIOD_SECS, SWEEP_PERIOD_SECS,
};
use redust::server::{process_command_parts, Command};

fn key(k: &str) -> String {
    k.to_string()
}

#[test]
fn replay_puts_without_checking() {
    let mut store = Store::new();
    apply_command("UPDATE ghost v", &mut store);
    assert_eq!(store.entry(&key("ghost")).unwrap().value, "v");
    apply_command("SET ghost w", &mut store);
    assert_eq!(store.entry(&key("ghost")).unwrap().value, "w");
    apply_command("DELETE nothing", &mut store);
    apply_command("DELETE ghost", &mut store);
    assert!(store.is_empty());
}

#[test]
fn replay_reads_ttl_as_epoch_second() {
    let mut store = Store::new();
    apply_command("SET k v TTL 1700000002", &mut store);
    let e = store.entry(&key("k")).unwrap();
    assert_eq!(e.value, "v");
    assert_eq!(e.expire_at, Some(Timestamp { secs: 1700000002, nanos: 0 }));
    apply_command("update k w", &mut store);
    assert_eq!(store.entry(&key("k")).unwrap().expire_at, None);
}

#[test]
fn replay_skips_malformed_lines() {
    let mut store = Store::new();
    store.upsert(key("k"), Entry { value: "v".to_string(), expire_at: None });
    for line in ["", "   ", "SET", "SET k", "SET k v w", "SET k v TTL x", "NOPE k v", "DELETE",
        "GET k", "QUIT", "MULTI"]
    {
        apply_command(line, &mut store);
    }
    assert_eq!(store.len(), 1);
    assert_eq!(store.entry(&key("k")).unwrap().value, "v");
}

#[test]
fn replay_of_typed_records() {
    let mut store = Store::new();
    replay(Command::Insert { key: key("a"), value: key("1"), ttl: Some(9) }, &mut store);
    replay(Command::Update { key: key("b"), value: key("2"), ttl: None }, &mut store);
    replay(Command::Get { key: key("a") }, &mut store);
    replay(Command::Quit, &mut store);
    assert_eq!(store.len(), 2);
    assert_eq!(store.entry(&key("a")).unwrap().expire_at, Some(Timestamp { secs: 9, nanos: 0 }));
    replay(Command::Delete { key: key("a") }, &mut store);
    assert_eq!(store.len(), 1);
}

#[test]
fn restore_without_snapshot_starts_empty() {
    let mut store = Store::new();
    store.upsert(key("stale"), Entry { value: "x".to_string(), expire_at: None });
    restore_state(&mut store, None, &vec!["SET a 1".to_string(), "garbage".to_string()]);
    assert_eq!(store.len(), 1);
    assert_eq!(store.entry(&key("a")).unwrap().value, "1");
}

#[test]
fn restore_from_snapshot_alone_gives_the_store_back() {
    let mut store = Store::new();
    store.upsert(key("x"), Entry { value: "9".to_string(), expire_at: None });
    let image = snapshot(&store);
    let mut fresh = Store::new();
    restore_state(&mut fresh, Some(image), &Vec::new());
    assert_eq!(fresh.len(), 1);
    assert_eq!(fresh.entry(&key("x")).unwrap().value, "9");
}

#[test]
fn replaying_the_log_of_a_run_rebuilds_its_store() {
    let mut store = Store::new();
    let mut log = Vec::new();
    let now = Timestamp { secs: 50, nanos: 123 };
    for line in ["SET a 1", "SET b 2 TTL 10", "UPDATE a 3 TTL 100", "DELETE b", "SET c 4",
        "SET a 5", "GET a"]
    {
        let parts: Vec<String> = line.split(' ').map(|w| w.to_string()).collect();
        process_command_parts(&parts, &mut store, &mut log, now);
    }
    let mut rebuilt = Store::new();
    restore_state(&mut rebuilt, None, &log);
    assert_eq!(rebuilt.len(), store.len());
    assert_eq!(rebuilt.entry(&key("a")).unwrap().value, "3");
    assert_eq!(rebuilt.entry(&key("a")).unwrap().expire_at, Some(Timestamp { secs: 150, nanos: 0 }));
    assert_eq!(store.entry(&key("a")).unwrap().expire_at, Some(Timestamp { secs: 150, nanos: 123 }));
    assert!(rebuilt.entry(&key("b")).is_none());
    assert_eq!(rebuilt.entry(&key("c")).unwrap().value, "4");
}

#[test]
fn batch_text_puts_each_record_on_its_line() {
    assert_eq!(render_batch(&Vec::new()), "");
    assert_eq!(render_batch(&vec!["SET a 1".to_string()]), "SET a 1\n");
    assert_eq!(
        render_batch(&vec!["SET a 1".to_string(), "DELETE a".to_string()]),
        "SET a 1\nDELETE a\n"
    );
}

#[test]
fn writer_gathers_while_the_window_is_open() {
    let mut w = LogWriter::new();
    assert_eq!(w.pending(), 0);
    assert!(matches!(w.on_event(QueueEvent::Record(key("r1")), 0), WriterAction::Poll));
    assert!(matches!(w.on_event(QueueEvent::Empty, 10), WriterAction::Pause));
    assert!(matches!(w.on_event(QueueEvent::Record(key("r2")), 999), WriterAction::Poll));
    assert_eq!(w.pending(), 2);
    match w.on_event(QueueEvent::Empty, 1000) {
        WriterAction::Write { records, stop } => {
            assert_eq!(records, vec!["r1", "r2"]);
            assert!(!stop);
        }
        other => panic!("unexpected action {:?}", other),
    }
    assert_eq!(w.pending(), 0);
}

#[test]
fn writer_writes_a_late_record_with_its_batch() {
    let mut w = LogWriter::new();
    assert!(matches!(w.on_event(QueueEvent::Record(key("r1")), 1), WriterAction::Poll));
    match w.on_event(QueueEvent::Record(key("r2")), 5000) {
        WriterAction::Write { records, stop } => {
            assert_eq!(records, vec!["r1", "r2"]);
            assert!(!stop);
        }
        other => panic!("unexpected action {:?}", other),
    }
    assert_eq!(w.pending(), 0);
}

#[test]
fn writer_drains_and_stops_when_disconnected() {
    let mut w = LogWriter::new();
    assert!(matches!(w.on_event(QueueEvent::Record(key("r1")), 1), WriterAction::Poll));
    match w.on_event(QueueEvent::Disconnected, 2) {
        WriterAction::Write { records, stop } => {
            assert_eq!(records, vec!["r1"]);
            assert!(stop);
        }
        other => panic!("unexpected action {:?}", other),
    }
    assert_eq!(w.pending(), 0);
}

#[test]
fn periods_are_the_documented_ones() {
    assert_eq!(BATCH_WINDOW_MICROS, 1000);
    assert_eq!(IDLE_PAUSE_MICROS, 10);
    assert_eq!(SWEEP_PERIOD_SECS, 1);
    assert_eq!(SNAPSHOT_PERIOD_SECS, 300);
}
