//! The in-memory log: append positions, expected-version checks, ordered
//! stream and category reads, batching.

use account_demo::message_store::{MessageStore, WriteError};
use account_demo::text::text;

fn chars(s: &str) -> Vec<char> {
    text(s)
}

fn write(store: &mut MessageStore, stream: &str, typ: &str, data: &str) {
    store
        .write_message(&chars(stream), &chars(typ), &chars(data), None, None, 7)
        .unwrap();
}

#[test]
fn append_assigns_positions() {
    let mut store = MessageStore::new();
    write(&mut store, "account-A1", "Opened", "{}");
    write(&mut store, "account-B2", "Opened", "{}");
    write(&mut store, "account-A1", "Closed", "{}");
    let a1 = store.get_stream_messages(&chars("account-A1"), 0, 100);
    assert_eq!(a1.len(), 2);
    assert_eq!(a1[0].global_position, Some(1));
    assert_eq!(a1[0].position, Some(0));
    assert_eq!(a1[1].global_position, Some(3));
    assert_eq!(a1[1].position, Some(1));
    let b2 = store.get_stream_messages(&chars("account-B2"), 0, 100);
    assert_eq!(b2.len(), 1);
    assert_eq!(b2[0].global_position, Some(2));
    assert_eq!(b2[0].position, Some(0));
}

#[test]
fn expected_version_check() {
    let mut store = MessageStore::new();
    // An empty stream has version -1.
    let r = store.write_message(&chars("s-1"), &chars("T"), &chars("{}"), None, Some(-1), 0);
    assert!(r.is_ok());
    // Appending from the now-stale version conflicts: exactly one of two
    // racing appends from the same hydrated version wins.
    let r = store.write_message(&chars("s-1"), &chars("T"), &chars("{}"), None, Some(-1), 0);
    assert_eq!(r, Err(WriteError::VersionConflict));
    // The current version succeeds.
    let r = store.write_message(&chars("s-1"), &chars("T"), &chars("{}"), None, Some(0), 0);
    assert!(r.is_ok());
    // No expected version skips the check.
    let r = store.write_message(&chars("s-1"), &chars("T"), &chars("{}"), None, None, 0);
    assert!(r.is_ok());
}

#[test]
fn stream_read_skips_and_batches() {
    let mut store = MessageStore::new();
    for i in 0..7 {
        write(&mut store, "s-1", "T", &format!("{{\"n\":{}}}", i));
        write(&mut store, "other-2", "T", "{}");
    }
    let all = store.get_stream_messages(&chars("s-1"), 0, 100);
    assert_eq!(all.len(), 7);
    let batch = store.get_stream_messages(&chars("s-1"), 2, 3);
    assert_eq!(batch.len(), 3);
    assert_eq!(batch[0].position, Some(2));
    assert_eq!(batch[2].position, Some(4));
    let tail = store.get_stream_messages(&chars("s-1"), 6, 3);
    assert_eq!(tail.len(), 1);
    let past = store.get_stream_messages(&chars("s-1"), 7, 3);
    assert_eq!(past.len(), 0);
}

#[test]
fn category_read_is_ordered_and_filtered() {
    let mut store = MessageStore::new();
    write(&mut store, "account-A1", "T", "{}"); // global 1
    write(&mut store, "ledger-X", "T", "{}"); // global 2
    write(&mut store, "account-B2", "T", "{}"); // global 3
    write(&mut store, "account:commands", "T", "{}"); // global 4, its own category
    write(&mut store, "account-A1", "T", "{}"); // global 5
    let cat = store.get_category_messages(&chars("account"), 0, 100);
    let globals: Vec<Option<i64>> = cat.iter().map(|m| m.global_position).collect();
    assert_eq!(globals, vec![Some(1), Some(3), Some(5)]);
    let from4 = store.get_category_messages(&chars("account"), 4, 100);
    assert_eq!(from4.len(), 1);
    assert_eq!(from4[0].global_position, Some(5));
    let cmd = store.get_category_messages(&chars("account:commands"), 0, 100);
    assert_eq!(cmd.len(), 1);
    assert_eq!(cmd[0].global_position, Some(4));
    let batch = store.get_category_messages(&chars("account"), 0, 2);
    assert_eq!(batch.len(), 2);
    assert_eq!(batch[1].global_position, Some(3));
}

#[test]
fn last_stream_message() {
    let mut store = MessageStore::new();
    assert!(store.get_last_stream_message(&chars("s-1")).is_none());
    write(&mut store, "s-1", "T", "{\"n\":1}");
    write(&mut store, "s-1", "T", "{\"n\":2}");
    let last = store.get_last_stream_message(&chars("s-1")).unwrap();
    assert_eq!(last.position, Some(1));
    let d: String = last.data.iter().collect();
    assert_eq!(d, "{\"n\":2}");
}
