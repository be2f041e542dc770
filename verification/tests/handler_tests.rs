//! Dispatch: decoding, routing, the idempotency gate, and the error
//! taxonomy.

use account_demo::account::AccountStore;
use account_demo::codec::encode_cmd_payload;
use account_demo::handler::{AccountHandler, HandlerError};
use account_demo::message::Message;
use account_demo::message_store::MessageStore;
use account_demo::text::text;

fn chars(s: &str) -> Vec<char> {
    text(s)
}

fn command_message(typ: &str, data: Vec<char>) -> Message {
    Message {
        global_position: Some(1),
        position: Some(0),
        stream_name: chars("account:commands"),
        message_type: chars(typ),
        data,
        metadata: None,
        time: 0,
    }
}

fn opened_count(store: &MessageStore, stream: &str) -> usize {
    store
        .get_stream_messages(&chars(stream), 0, 1000)
        .iter()
        .filter(|m| m.message_type.iter().collect::<String>() == "Opened")
        .count()
}

#[test]
fn open_appends_one_opened_event() {
    let mut store = MessageStore::new();
    let handler = AccountHandler::new();
    let msg = command_message("Open", encode_cmd_payload(&chars("A1")));
    assert!(handler.handle_at(&mut store, &msg, 99).is_ok());
    let stream = store.get_stream_messages(&chars("account-A1"), 0, 1000);
    assert_eq!(stream.len(), 1);
    assert_eq!(stream[0].message_type.iter().collect::<String>(), "Opened");
    let data: String = stream[0].data.iter().collect();
    assert_eq!(data, "{\"account_id\":\"A1\",\"processed_time\":99}");
}

#[test]
fn open_twice_appends_exactly_once() {
    // Duplicate delivery of the same Open command, as a crash before a
    // checkpoint causes: the second handling is a successful no-op.
    let mut store = MessageStore::new();
    let handler = AccountHandler::new();
    let msg = command_message("Open", encode_cmd_payload(&chars("A1")));
    assert!(handler.handle_at(&mut store, &msg, 10).is_ok());
    let msg_again = command_message("Open", encode_cmd_payload(&chars("A1")));
    assert!(handler.handle_at(&mut store, &msg_again, 20).is_ok());
    assert_eq!(opened_count(&store, "account-A1"), 1);
}

#[test]
fn hydration_folds_the_stream() {
    let mut store = MessageStore::new();
    let handler = AccountHandler::new();
    let msg = command_message("Open", encode_cmd_payload(&chars("A1")));
    handler.handle_at(&mut store, &msg, 33).unwrap();
    let hydrator = AccountStore::new();
    let (account, version) = hydrator.fetch(&store, &chars("A1")).unwrap();
    assert!(account.opened());
    assert_eq!(account.opened_time, Some(33));
    assert_eq!(version, Some(0));
    let (fresh, none_version) = hydrator.fetch(&store, &chars("NEW")).unwrap();
    assert!(!fresh.opened());
    assert_eq!(none_version, None);
}

#[test]
fn malformed_payload_is_a_decode_error() {
    let mut store = MessageStore::new();
    let handler = AccountHandler::new();
    let msg = command_message("Open", chars("{\"account\":\"A1\"}"));
    assert_eq!(handler.handle_at(&mut store, &msg, 0), Err(HandlerError::Decode));
    // Nothing was appended.
    assert_eq!(store.get_category_messages(&chars("account"), 0, 1000).len(), 0);
    // Deposit requires a numeric amount.
    let msg = command_message("Deposit", chars("{\"account_id\":\"A1\"}"));
    assert_eq!(handler.handle_at(&mut store, &msg, 0), Err(HandlerError::Decode));
}

#[test]
fn unknown_type_is_unsupported() {
    let mut store = MessageStore::new();
    let handler = AccountHandler::new();
    let msg = command_message("Freeze", chars("{\"account_id\":\"A1\"}"));
    assert_eq!(handler.handle_at(&mut store, &msg, 0), Err(HandlerError::UnsupportedType));
    // Event types have no command handler either.
    let msg = command_message("Opened", chars("{\"account_id\":\"A1\",\"processed_time\":1}"));
    assert_eq!(handler.handle_at(&mut store, &msg, 0), Err(HandlerError::UnsupportedType));
}

#[test]
fn close_deposit_withdraw_decode_and_accept() {
    let mut store = MessageStore::new();
    let handler = AccountHandler::new();
    let close = command_message("Close", encode_cmd_payload(&chars("A1")));
    assert!(handler.handle_at(&mut store, &close, 0).is_ok());
    let deposit = command_message(
        "Deposit",
        account_demo::codec::encode_amount_payload(&chars("A1"), 250),
    );
    assert!(handler.handle_at(&mut store, &deposit, 0).is_ok());
    let withdraw = command_message(
        "Withdraw",
        account_demo::codec::encode_amount_payload(&chars("A1"), 100),
    );
    assert!(handler.handle_at(&mut store, &withdraw, 0).is_ok());
    // Accepted without appending: the business rules are stubs.
    assert_eq!(store.get_category_messages(&chars("account"), 0, 1000).len(), 0);
}

#[test]
fn clocked_handle_stamps_a_real_time() {
    let mut store = MessageStore::new();
    let handler = AccountHandler::new();
    let msg = command_message("Open", encode_cmd_payload(&chars("A1")));
    assert!(handler.handle(&mut store, &msg).is_ok());
    let stream = store.get_stream_messages(&chars("account-A1"), 0, 1000);
    assert_eq!(stream.len(), 1);
    let ev = account_demo::events::Opened::from_message(stream[0].duplicate()).unwrap();
    assert!(ev.processed_time.is_some());
}

#[test]
fn racing_appends_conflict() {
    // Two handlers hydrate the same entity at the same version and both
    // try to append: exactly one success, one version conflict.
    let mut store = MessageStore::new();
    let handler = AccountHandler::new();
    let msg = command_message("Open", encode_cmd_payload(&chars("A1")));
    handler.handle_at(&mut store, &msg, 1).unwrap();
    let hydrator = AccountStore::new();
    let (_account, version) = hydrator.fetch(&store, &chars("A1")).unwrap();
    // Both writers believe the stream is at `version`.
    let data = account_demo::codec::encode_opened_payload(&chars("A1"), Some(2));
    let first = store.write_message(
        &chars("account-A1"),
        &chars("Opened"),
        &data,
        None,
        Some(version.unwrap()),
        2,
    );
    assert!(first.is_ok());
    let second = store.write_message(
        &chars("account-A1"),
        &chars("Opened"),
        &data,
        None,
        Some(version.unwrap()),
        3,
    );
    assert_eq!(
        second,
        Err(account_demo::message_store::WriteError::VersionConflict)
    );
}

#[test]
fn open_with_escaped_id_round_trips() {
    // An id needing escapes survives dispatch, append and hydration.
    let mut store = MessageStore::new();
    let handler = AccountHandler::new();
    let id = chars("say \"hi\"\\now");
    let msg = command_message("Open", encode_cmd_payload(&id));
    assert!(handler.handle_at(&mut store, &msg, 7).is_ok());
    let hydrator = AccountStore::new();
    let (account, version) = hydrator.fetch(&store, &id).unwrap();
    assert!(account.opened());
    assert_eq!(account.opened_time, Some(7));
    assert_eq!(version, Some(0));
    // And the duplicate delivery stays a no-op.
    let again = command_message("Open", encode_cmd_payload(&id));
    assert!(handler.handle_at(&mut store, &again, 8).is_ok());
    assert_eq!(opened_count(&store, &("account-".to_string() + &id.iter().collect::<String>())), 1);
}
