//! Domain types: accounts, commands, events, names.

use account_demo::account::{account_stream_name, Account};
use account_demo::codec::{encode_amount_payload, encode_cmd_payload};
use account_demo::commands::Command;
use account_demo::events::Opened;
use account_demo::message::{category_of_stream, kind_of_type, Message, MessageKind};
use account_demo::position_store::PositionStore;
use account_demo::text::{text, text_eq, text_is};

fn chars(s: &str) -> Vec<char> {
    text(s)
}

fn string_of(v: &[char]) -> String {
    v.iter().collect()
}

#[test]
fn account_opened_and_funds() {
    let mut a = Account::new(&chars("A1"));
    assert!(!a.opened());
    assert!(a.sufficient_funds(0));
    assert!(!a.sufficient_funds(1));
    a.balance = Some(100);
    assert!(a.sufficient_funds(100));
    assert!(a.withdraw(30));
    assert_eq!(a.balance, Some(70));
    assert!(!a.withdraw(71));
    assert_eq!(a.balance, Some(70));
}

#[test]
fn categories_and_stream_names() {
    assert_eq!(string_of(&category_of_stream(&chars("account-A1"))), "account");
    assert_eq!(string_of(&category_of_stream(&chars("account:commands"))), "account:commands");
    assert_eq!(string_of(&category_of_stream(&chars("a-b-c"))), "a");
    assert_eq!(string_of(&account_stream_name(&chars("A1"))), "account-A1");
    let ps = PositionStore::new(chars("account:commands"), None, 5);
    assert_eq!(string_of(&ps.position_stream_name()), "account:commands:position");
    let ps = PositionStore::new(chars("account:commands"), Some(chars("c1")), 5);
    assert_eq!(string_of(&ps.position_stream_name()), "account:commands:position-c1");
}

#[test]
fn message_kinds() {
    assert_eq!(kind_of_type(&chars("Open")), MessageKind::Open);
    assert_eq!(kind_of_type(&chars("Close")), MessageKind::Close);
    assert_eq!(kind_of_type(&chars("Deposit")), MessageKind::Deposit);
    assert_eq!(kind_of_type(&chars("Withdraw")), MessageKind::Withdraw);
    assert_eq!(kind_of_type(&chars("Opened")), MessageKind::Opened);
    assert_eq!(kind_of_type(&chars("Recorded")), MessageKind::Recorded);
    assert_eq!(kind_of_type(&chars("Other")), MessageKind::Unrecognized);
}

fn command_message(typ: &str, data: Vec<char>) -> Message {
    Message {
        global_position: Some(9),
        position: Some(4),
        stream_name: chars("account:commands"),
        message_type: chars(typ),
        data,
        metadata: None,
        time: 0,
    }
}

#[test]
fn command_decoding_round_trip() {
    let msg = command_message("Open", encode_cmd_payload(&chars("A1")));
    let cmd = Command::from_message(msg).unwrap();
    assert!(text_is(cmd.account_id(), "A1"));
    assert_eq!(cmd.position(), Some(4));
    assert!(matches!(cmd, Command::Open { .. }));
    let msg = command_message("Withdraw", encode_amount_payload(&chars("W9"), 75));
    let cmd = Command::from_message(msg).unwrap();
    match &cmd {
        Command::Withdraw { account_id, amount, .. } => {
            assert!(text_eq(account_id, &chars("W9")));
            assert_eq!(*amount, 75);
        },
        _ => panic!("decoded the wrong command kind"),
    }
}

#[test]
fn opened_follows_a_command() {
    let msg = command_message("Open", encode_cmd_payload(&chars("A1")));
    let cmd = Command::from_message(msg).unwrap();
    let ev = Opened::follow(&cmd);
    assert!(text_is(&ev.account_id, "A1"));
    assert_eq!(ev.processed_time, None);
    assert_eq!(ev.position, Some(4));
    let stamped = Opened { processed_time: Some(123), ..ev };
    assert_eq!(
        string_of(&stamped.to_payload()),
        "{\"account_id\":\"A1\",\"processed_time\":123}"
    );
    assert_eq!(stamped.event_name(), "Opened");
}

#[test]
fn default_message_is_blank() {
    let m = Message::default();
    assert_eq!(m.global_position, None);
    assert_eq!(m.position, None);
    assert_eq!(m.stream_name.len(), 0);
    assert_eq!(m.message_type.len(), 0);
    assert_eq!(m.data.len(), 0);
    assert!(m.metadata.is_none());
    assert_eq!(m.time, 0);
}
