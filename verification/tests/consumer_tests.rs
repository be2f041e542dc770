//! The consumer loop end to end: catch-up over an empty log, idempotent
//! replay through the loop, checkpoint batching and crash resumption.

use account_demo::codec::encode_cmd_payload;
use account_demo::consumer::CommandsConsumer;
use account_demo::events::Recorded;
use account_demo::handler::AccountHandler;
use account_demo::message_store::MessageStore;
use account_demo::position_store::PositionStore;
use account_demo::text::text;

fn chars(s: &str) -> Vec<char> {
    text(s)
}

fn consumer() -> CommandsConsumer {
    let position_store = PositionStore::new(chars("account:commands"), None, 5);
    CommandsConsumer::new(chars("account:commands"), position_store, AccountHandler::new())
}

fn write_open(store: &mut MessageStore, id: &str) {
    store
        .write_message(
            &chars("account:commands"),
            &chars("Open"),
            &encode_cmd_payload(&chars(id)),
            None,
            None,
            0,
        )
        .unwrap();
}

#[test]
fn empty_log_reaches_tail_at_zero() {
    // Catch-up on an empty log reads zero messages, enters tail mode, and
    // the current position stays zero.
    let mut store = MessageStore::new();
    let mut c = consumer();
    c.start(&store).unwrap();
    assert_eq!(c.cursor, 0);
    let outcome = c.poll_step(&mut store, 1);
    assert_eq!(outcome.processed, 0);
    assert_eq!(outcome.failed, 0);
    assert!(outcome.reached_tail);
    assert_eq!(c.current_position(), 0);
}

#[test]
fn duplicate_open_yields_one_opened() {
    // Append Open{A1} twice; the loop dispatches both, the entity stream
    // ends up with exactly one Opened{A1}.
    let mut store = MessageStore::new();
    write_open(&mut store, "A1");
    write_open(&mut store, "A1");
    let mut c = consumer();
    c.start(&store).unwrap();
    let outcome = c.poll_step(&mut store, 50);
    assert_eq!(outcome.processed, 2);
    assert_eq!(outcome.failed, 0);
    let stream = store.get_stream_messages(&chars("account-A1"), 0, 1000);
    let opened: Vec<String> = stream
        .iter()
        .map(|m| m.message_type.iter().collect::<String>())
        .filter(|t| t == "Opened")
        .collect();
    assert_eq!(opened.len(), 1);
}

#[test]
fn dispatch_order_is_ascending() {
    let mut store = MessageStore::new();
    for i in 0..6 {
        write_open(&mut store, &format!("A{}", i));
    }
    let mut c = consumer();
    c.batch_size = 4;
    c.start(&store).unwrap();
    let first = c.poll_step(&mut store, 1);
    assert_eq!(first.processed, 4);
    assert!(!first.reached_tail);
    assert_eq!(c.cursor, 4);
    let second = c.poll_step(&mut store, 2);
    assert_eq!(second.processed, 2);
    assert!(second.reached_tail);
    assert_eq!(c.cursor, 6);
}

#[test]
fn checkpoints_batch_every_fifth_position_and_resume() {
    // Batching interval 5; dispatching positions 1..=12 persists
    // checkpoints for 5 and 10 only; a restart resumes catch-up at 11.
    let mut store = MessageStore::new();
    for i in 0..12 {
        write_open(&mut store, &format!("A{}", i));
    }
    let mut c = consumer();
    c.start(&store).unwrap();
    let outcome = c.poll_step(&mut store, 7);
    assert_eq!(outcome.processed, 12);
    assert_eq!(c.current_position(), 12);
    let checkpoints = store.get_stream_messages(&chars("account:commands:position"), 0, 1000);
    let recorded: Vec<i64> = checkpoints
        .iter()
        .map(|m| {
            Recorded::from_message(m.duplicate())
                .unwrap()
                .recorded_position
        })
        .collect();
    assert_eq!(recorded, vec![5, 10]);
    // Crash: a fresh consumer recovers the last checkpoint and resumes
    // reading at position 11.
    let mut restarted = consumer();
    restarted.start(&store).unwrap();
    assert_eq!(restarted.cursor, 10);
    let resumed = restarted.poll_step(&mut store, 8);
    // Positions 11 and 12 are re-delivered (at-least-once); handling them
    // again appends nothing new.
    assert_eq!(resumed.processed, 2);
    let stream = store.get_stream_messages(&chars("account-A11"), 0, 1000);
    assert_eq!(stream.len(), 1);
}

#[test]
fn failed_dispatch_does_not_advance_the_position() {
    let mut store = MessageStore::new();
    write_open(&mut store, "A1");
    store
        .write_message(
            &chars("account:commands"),
            &chars("Unknown"),
            &chars("{}"),
            None,
            None,
            0,
        )
        .unwrap();
    write_open(&mut store, "A2");
    let mut c = consumer();
    c.start(&store).unwrap();
    let outcome = c.poll_step(&mut store, 1);
    assert_eq!(outcome.processed, 2);
    assert_eq!(outcome.failed, 1);
    // The cursor passed the failure, but the durable position never
    // includes it silently: it advanced on the successes only.
    assert_eq!(c.cursor, 3);
    assert_eq!(c.current_position(), 3);
}

#[test]
fn clocked_poll_runs() {
    let mut store = MessageStore::new();
    write_open(&mut store, "A1");
    let mut c = consumer();
    c.start(&store).unwrap();
    let outcome = c.poll(&mut store);
    assert_eq!(outcome.processed, 1);
    assert!(outcome.reached_tail);
}

#[test]
fn malformed_checkpoint_fails_recovery() {
    let mut store = MessageStore::new();
    store
        .write_message(
            &chars("account:commands:position"),
            &chars("Recorded"),
            &chars("not json"),
            None,
            None,
            0,
        )
        .unwrap();
    let mut c = consumer();
    assert!(c.start(&store).is_err());
}
