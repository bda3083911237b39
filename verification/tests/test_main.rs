// Scenarios of one client connection, driven line by line.
use redust::db::{Entry, Store, Timestamp};
use redust::persistence::{restore_state, snapshot};
use redust::server::Session;
use std::collections::HashMap;

struct Client {
    session: Session,
    store: Store,
    log: Vec<String>,
    now: Timestamp,
}

fn connect() -> Client {
    Client {
        session: Session::new(),
        store: Store::new(),
        log: Vec::new(),
        now: Timestamp { secs: 1_700_000_000, nanos: 250 },
    }
}

fn send(client: &mut Client, line: &str) -> Vec<String> {
    let out = client
        .session
        .handle_line(line, &mut client.store, &mut client.log, client.now);
    out.replies
}

#[test]
fn test_set_get_update_delete() {
    let mut c = connect();
    assert_eq!(send(&mut c, "SET mykey myvalue\n"), vec!["OK"]);
    assert_eq!(send(&mut c, "GET mykey\n"), vec!["myvalue"]);
    assert_eq!(send(&mut c, "UPDATE mykey updatedvalue\n"), vec!["OK"]);
    assert_eq!(send(&mut c, "GET mykey\n"), vec!["updatedvalue"]);
    assert_eq!(send(&mut c, "DELETE mykey\n"), vec!["OK"]);
    assert_eq!(send(&mut c, "GET mykey\n"), vec!["nil"]);
    assert_eq!(
        c.log,
        vec!["SET mykey myvalue", "UPDATE mykey updatedvalue", "DELETE mykey"]
    );
}

#[test]
fn test_ttl_expiration() {
    let mut c = connect();
    assert_eq!(send(&mut c, "SET tempkey tempvalue TTL 2\n"), vec!["OK"]);
    assert_eq!(send(&mut c, "GET tempkey\n"), vec!["tempvalue"]);
    c.now = Timestamp { secs: c.now.secs + 3, nanos: c.now.nanos };
    assert_eq!(send(&mut c, "GET tempkey\n"), vec!["nil"]);
    assert_eq!(c.log, vec!["SET tempkey tempvalue TTL 1700000002"]);
}

#[test]
fn test_quit() {
    let mut c = connect();
    let out = c
        .session
        .handle_line("QUIT\n", &mut c.store, &mut c.log, c.now);
    assert_eq!(out.replies, vec!["BYE"]);
    assert!(out.close);
}

#[test]
fn test_snapshot() {
    let mut store = Store::new();
    store.upsert(
        "snapkey".to_string(),
        Entry { value: "snapvalue".to_string(), expire_at: None },
    );
    let image = snapshot(&store);
    let mut plain: HashMap<String, (String, Option<(u64, u32)>)> = HashMap::new();
    for (key, entry) in image {
        plain.insert(key, (entry.value, entry.expire_at.map(|t| (t.secs, t.nanos))));
    }
    let written = serde_json::to_string(&plain).unwrap();
    let loaded: HashMap<String, (String, Option<(u64, u32)>)> =
        serde_json::from_str(&written).unwrap();
    assert!(loaded.contains_key("snapkey"));
    assert_eq!(loaded.get("snapkey").unwrap().0, "snapvalue");
}

#[test]
fn test_transaction_exec() {
    let mut c = connect();
    assert_eq!(send(&mut c, "MULTI\n"), vec!["OK"]);
    assert_eq!(send(&mut c, "SET txkey txvalue\n"), vec!["QUEUED"]);
    assert_eq!(send(&mut c, "GET txkey\n"), vec!["QUEUED"]);
    assert_eq!(send(&mut c, "EXEC\n"), vec!["OK", "txvalue"]);
}

#[test]
fn test_transaction_discard() {
    let mut c = connect();
    assert_eq!(send(&mut c, "MULTI\n"), vec!["OK"]);
    assert_eq!(send(&mut c, "SET delkey delvalue\n"), vec!["QUEUED"]);
    assert_eq!(send(&mut c, "DISCARD\n"), vec!["OK"]);
    assert_eq!(send(&mut c, "GET delkey\n"), vec!["nil"]);
    assert!(c.log.is_empty());
}

#[test]
fn test_restore_state() {
    let mut db = Store::new();
    db.upsert("key1".to_string(), Entry { value: "value1".to_string(), expire_at: None });
    db.upsert("key2".to_string(), Entry { value: "value2".to_string(), expire_at: None });
    let image = snapshot(&db);

    let aof = vec![
        "UPDATE key1 new_value1".to_string(),
        "DELETE key2".to_string(),
        "SET key3 value3".to_string(),
    ];

    let mut new_db = Store::new();
    restore_state(&mut new_db, Some(image), &aof);

    assert_eq!(new_db.entry(&"key1".to_string()).unwrap().value, "new_value1");
    assert!(new_db.entry(&"key2".to_string()).is_none());
    assert_eq!(new_db.entry(&"key3".to_string()).unwrap().value, "value3");
}

#[test]
fn transaction_applies_both_writes_in_order() {
    let mut c = connect();
    assert_eq!(send(&mut c, "MULTI"), vec!["OK"]);
    assert_eq!(send(&mut c, "SET a 1"), vec!["QUEUED"]);
    assert_eq!(send(&mut c, "UPDATE a 2"), vec!["QUEUED"]);
    assert!(c.store.is_empty());
    assert!(c.session.in_transaction());
    assert_eq!(c.session.queued(), 2);
    assert_eq!(send(&mut c, "EXEC"), vec!["OK", "OK"]);
    assert!(!c.session.in_transaction());
    assert_eq!(c.session.queued(), 0);
    assert_eq!(send(&mut c, "GET a"), vec!["2"]);
    assert_eq!(c.log, vec!["SET a 1", "UPDATE a 2"]);
}

#[test]
fn discard_leaves_key_absent_and_log_empty() {
    let mut c = connect();
    assert_eq!(send(&mut c, "MULTI"), vec!["OK"]);
    assert_eq!(send(&mut c, "SET b 1"), vec!["QUEUED"]);
    assert_eq!(send(&mut c, "DISCARD"), vec!["OK"]);
    assert_eq!(send(&mut c, "GET b"), vec!["nil"]);
    assert!(!c.store.contains_key(&"b".to_string()));
    assert!(c.log.is_empty());
}

#[test]
fn get_of_absent_key_is_nil() {
    let mut c = connect();
    assert_eq!(send(&mut c, "GET nothing"), vec!["nil"]);
    assert!(c.log.is_empty());
}

#[test]
fn second_set_is_refused_and_keeps_value() {
    let mut c = connect();
    assert_eq!(send(&mut c, "SET k v"), vec!["OK"]);
    assert_eq!(send(&mut c, "SET k v2"), vec!["ERR: La clé existe déjà."]);
    assert_eq!(send(&mut c, "GET k"), vec!["v"]);
    assert_eq!(c.log, vec!["SET k v"]);
}

#[test]
fn update_of_absent_key_is_refused() {
    let mut c = connect();
    assert_eq!(send(&mut c, "UPDATE k v"), vec!["ERR: La clé n'existe pas."]);
    assert_eq!(send(&mut c, "GET k"), vec!["nil"]);
    assert!(c.log.is_empty());
}

#[test]
fn delete_of_absent_key_is_refused() {
    let mut c = connect();
    assert_eq!(send(&mut c, "DELETE k"), vec!["ERR: La clé n'existe pas."]);
    assert!(c.log.is_empty());
}

#[test]
fn delete_then_get_is_nil_until_set() {
    let mut c = connect();
    assert_eq!(send(&mut c, "SET k v"), vec!["OK"]);
    assert_eq!(send(&mut c, "DELETE k"), vec!["OK"]);
    assert_eq!(send(&mut c, "GET k"), vec!["nil"]);
    assert_eq!(send(&mut c, "UPDATE k w"), vec!["ERR: La clé n'existe pas."]);
    assert_eq!(send(&mut c, "GET k"), vec!["nil"]);
    assert_eq!(send(&mut c, "SET k again"), vec!["OK"]);
    assert_eq!(send(&mut c, "GET k"), vec!["again"]);
}

#[test]
fn expiry_is_checked_at_read_time_with_ties_expired() {
    let mut c = connect();
    c.now = Timestamp { secs: 100, nanos: 5 };
    assert_eq!(send(&mut c, "SET k v TTL 2"), vec!["OK"]);
    c.now = Timestamp { secs: 102, nanos: 4 };
    assert_eq!(send(&mut c, "GET k"), vec!["v"]);
    c.now = Timestamp { secs: 102, nanos: 5 };
    assert_eq!(send(&mut c, "GET k"), vec!["nil"]);
    // the entry is still held until it is swept, so SET is refused
    assert_eq!(send(&mut c, "SET k w"), vec!["ERR: La clé existe déjà."]);
    c.store.sweep_expired(c.now);
    assert_eq!(send(&mut c, "SET k w"), vec!["OK"]);
    assert_eq!(send(&mut c, "GET k"), vec!["w"]);
}

#[test]
fn zero_ttl_expires_at_once() {
    let mut c = connect();
    assert_eq!(send(&mut c, "SET k v TTL 0"), vec!["OK"]);
    assert_eq!(send(&mut c, "GET k"), vec!["nil"]);
}

#[test]
fn update_replaces_value_and_expiry() {
    let mut c = connect();
    c.now = Timestamp { secs: 10, nanos: 0 };
    assert_eq!(send(&mut c, "SET k v TTL 5"), vec!["OK"]);
    assert_eq!(send(&mut c, "UPDATE k w"), vec!["OK"]);
    c.now = Timestamp { secs: 1000, nanos: 0 };
    assert_eq!(send(&mut c, "GET k"), vec!["w"]);
    assert_eq!(c.store.entry(&"k".to_string()).unwrap().expire_at, None);
}

#[test]
fn blank_line_gets_no_reply() {
    let mut c = connect();
    let out = c.session.handle_line("   \t \n", &mut c.store, &mut c.log, c.now);
    assert!(out.replies.is_empty());
    assert!(!out.close);
    assert_eq!(send(&mut c, ""), Vec::<String>::new());
}

#[test]
fn verbs_are_read_without_regard_to_case() {
    let mut c = connect();
    assert_eq!(send(&mut c, "set K v"), vec!["OK"]);
    assert_eq!(send(&mut c, "Get K"), vec!["v"]);
    assert_eq!(send(&mut c, "get k"), vec!["nil"]);
    assert_eq!(send(&mut c, "set t v ttl 9"), vec!["OK"]);
    assert_eq!(send(&mut c, "mUlTi"), vec!["OK"]);
    assert_eq!(send(&mut c, "discard"), vec!["OK"]);
    assert_eq!(c.log, vec!["SET K v", "SET t v TTL 1700000009"]);
}

#[test]
fn transaction_words_outside_their_state_are_unknown() {
    let mut c = connect();
    assert_eq!(send(&mut c, "EXEC"), vec!["ERR: Commande inconnue"]);
    assert_eq!(send(&mut c, "DISCARD"), vec!["ERR: Commande inconnue"]);
    assert_eq!(send(&mut c, "MULTI now"), vec!["ERR: Commande inconnue"]);
    assert!(!c.session.in_transaction());
}

#[test]
fn nested_multi_is_queued_like_any_line() {
    let mut c = connect();
    assert_eq!(send(&mut c, "MULTI"), vec!["OK"]);
    assert_eq!(send(&mut c, "MULTI"), vec!["QUEUED"]);
    assert_eq!(send(&mut c, "SET a 1"), vec!["QUEUED"]);
    assert_eq!(send(&mut c, "EXEC"), vec!["ERR: Commande inconnue", "OK"]);
    assert_eq!(send(&mut c, "GET a"), vec!["1"]);
}

#[test]
fn quit_inside_transaction_does_not_close() {
    let mut c = connect();
    assert_eq!(send(&mut c, "MULTI"), vec!["OK"]);
    let queued = c.session.handle_line("QUIT", &mut c.store, &mut c.log, c.now);
    assert_eq!(queued.replies, vec!["QUEUED"]);
    assert!(!queued.close);
    let run = c.session.handle_line("EXEC", &mut c.store, &mut c.log, c.now);
    assert_eq!(run.replies, vec!["BYE"]);
    assert!(!run.close);
}

#[test]
fn failed_command_in_transaction_does_not_stop_the_rest() {
    let mut c = connect();
    assert_eq!(send(&mut c, "SET a 1"), vec!["OK"]);
    assert_eq!(send(&mut c, "MULTI"), vec!["OK"]);
    assert_eq!(send(&mut c, "SET a 2"), vec!["QUEUED"]);
    assert_eq!(send(&mut c, "SET b 3"), vec!["QUEUED"]);
    assert_eq!(send(&mut c, "EXEC"), vec!["ERR: La clé existe déjà.", "OK"]);
    assert_eq!(send(&mut c, "GET a"), vec!["1"]);
    assert_eq!(send(&mut c, "GET b"), vec!["3"]);
    assert_eq!(c.log, vec!["SET a 1", "SET b 3"]);
}

#[test]
fn empty_transaction_gives_no_reply_lines() {
    let mut c = connect();
    assert_eq!(send(&mut c, "MULTI"), vec!["OK"]);
    assert_eq!(send(&mut c, "EXEC"), Vec::<String>::new());
    assert!(!c.session.in_transaction());
}
