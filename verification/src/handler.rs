//! The account command handler: decode a raw message into a typed
//! command, hydrate the target entity, decide idempotently, stamp and
//! append the resulting event with the hydrated version as the expected
//! version. Only a fully successful dispatch lets the consumer loop
//! advance the position store.

use vstd::prelude::*;

use crate::account::{
    account_stream, account_stream_name, fold_account, stream_decodable, stream_fold_version,
    Account, AccountStore,
};
use crate::clock::Clock;
use crate::codec::{dec_amount_payload, dec_cmd_payload, opened_payload};
use crate::commands::{command_view_id, Command};
use crate::events::Opened;
use crate::message::{kind_of, kind_of_type, Message, MessageKind, MessageView};
use crate::message_store::{
    stream_msgs, write_model, wf_log, MessageStore,
};
use crate::text::text;

verus! {

/// Why a message could not be dispatched.
#[derive(Clone, Copy, Debug, PartialEq, Eq, Structural)]
pub enum HandlerError {
    /// Malformed or incomplete payload: permanent for this message, so it
    /// is surfaced rather than retried.
    Decode,
    /// A message type with no registered handler: permanent and surfaced,
    /// never silently skipped.
    UnsupportedType,
    /// A concurrent append won a race on the entity stream; safe to retry
    /// after re-hydration.
    VersionConflict,
}

/// What handling an `Open` command for entity `id` does to the log, and
/// what it returns: fail on an undecodable entity stream; accept without
/// appending when the account is already open (the at-least-once-safe
/// no-op); otherwise append one `Opened` event, stamped `now`, with the
/// hydrated version as the expected version.
pub open spec fn open_model(log: Seq<MessageView>, id: Seq<char>, now: i64) -> (
    Seq<MessageView>,
    Result<(), HandlerError>,
) {
    let stream = account_stream(id);
    let sm = stream_msgs(log, stream);
    if !stream_decodable(sm) {
        (log, Err(HandlerError::Decode))
    } else if fold_account(id, sm).opened_time is Some {
        (log, Ok(()))
    } else {
        let expected = match stream_fold_version(sm) {
            Some(v) => v,
            None => -1i64,
        };
        let w = write_model(
            log,
            stream,
            "Opened"@,
            opened_payload(id, Some(now)),
            None,
            now,
            Some(expected),
        );
        (
            w.log,
            if w.ok {
                Ok(())
            } else {
                Err(HandlerError::VersionConflict)
            },
        )
    }
}

/// What dispatching one message does: route on the closed set of command
/// kinds, fail a malformed payload with a decode error, fail every other
/// type as unsupported. `Close`, `Deposit` and `Withdraw` decode and
/// accept without appending (their business rules are domain plumbing
/// outside this runtime's core).
pub open spec fn handle_model(log: Seq<MessageView>, m: MessageView, now: i64) -> (
    Seq<MessageView>,
    Result<(), HandlerError>,
) {
    match kind_of(m.message_type) {
        MessageKind::Open => match dec_cmd_payload(m.data) {
            Some(id) => open_model(log, id, now),
            None => (log, Err(HandlerError::Decode)),
        },
        MessageKind::Close => match dec_cmd_payload(m.data) {
            Some(_) => (log, Ok(())),
            None => (log, Err(HandlerError::Decode)),
        },
        MessageKind::Deposit => match dec_amount_payload(m.data) {
            Some(_) => (log, Ok(())),
            None => (log, Err(HandlerError::Decode)),
        },
        MessageKind::Withdraw => match dec_amount_payload(m.data) {
            Some(_) => (log, Ok(())),
            None => (log, Err(HandlerError::Decode)),
        },
        _ => (log, Err(HandlerError::UnsupportedType)),
    }
}

/// One append an accepted command requires: stream, type, payload and
/// expected version, as plain values, for a caller whose log lives
/// behind a transport.
pub struct AppendRequest {
    pub stream_name: Vec<char>,
    pub message_type: Vec<char>,
    pub data: Vec<char>,
    pub expected_version: i64,
}

/// Handles the commands of the account category.
pub struct AccountHandler {
    clock: Clock,
    account_store: AccountStore,
}

impl AccountHandler {
    pub closed spec fn wf(&self) -> bool {
        self.account_store.batch_size >= 1
    }

    pub fn new() -> (h: AccountHandler)
        ensures
            h.wf(),
    {
        AccountHandler { clock: Clock, account_store: AccountStore::new() }
    }

    /// The handler's injected clock.
    pub fn clock(&self) -> Clock {
        self.clock
    }

    /// The open decision alone, on hydrated state: nothing to append when
    /// the account is already open (the at-least-once-safe no-op),
    /// otherwise exactly the `Opened` append that accepting the command
    /// requires, stamped `now`, with the hydrated version as the expected
    /// version.
    pub fn decide_open(
        &self,
        account: &Account,
        open: &Command,
        version: Option<i64>,
        now: i64,
    ) -> (r: Option<AppendRequest>)
        ensures
            (r is Some) == (account@.opened_time is None),
            r matches Some(q) ==> q.stream_name@ == account_stream(command_view_id(open@))
                && q.message_type@ == "Opened"@ && q.data@ == opened_payload(
                command_view_id(open@),
                Some(now),
            ) && q.expected_version == (match version {
                Some(v) => v,
                None => -1i64,
            }),
    {
        if account.opened() {
            return None;
        }
        let followed = Opened::follow(open);
        let opened = Opened { processed_time: Some(now), ..followed };
        Some(
            AppendRequest {
                stream_name: account_stream_name(open.account_id()),
                message_type: text(opened.event_name()),
                data: opened.to_payload(),
                expected_version: match version {
                    Some(v) => v,
                    None => -1,
                },
            },
        )
    }

    /// Handle an `Open` command: hydrate, decide idempotently, append.
    pub fn handle_open(&self, store: &mut MessageStore, open: &Command, now: i64) -> (r: Result<
        (),
        HandlerError,
    >)
        requires
            self.wf(),
            old(store).wf(),
            old(store)@.len() < i64::MAX as int,
        ensures
            final(store).wf(),
            final(store)@ == open_model(old(store)@, command_view_id(open@), now).0,
            r == open_model(old(store)@, command_view_id(open@), now).1,
    {
        let account_id = open.account_id();
        match self.account_store.fetch(store, account_id) {
            Err(_) => Err(HandlerError::Decode),
            Ok((account, version)) => match self.decide_open(&account, open, version, now) {
                // Already satisfied: succeed without appending.
                None => Ok(()),
                Some(req) => match store.write_message(
                    &req.stream_name,
                    &req.message_type,
                    &req.data,
                    None,
                    Some(req.expected_version),
                    now,
                ) {
                    Ok(_) => Ok(()),
                    Err(_) => Err(HandlerError::VersionConflict),
                },
            },
        }
    }

    /// Handle a `Close` command. Accepted without effect: the business
    /// rule is domain plumbing outside this runtime's core.
    pub fn handle_close(&self, store: &mut MessageStore, close: &Command) -> (r: Result<
        (),
        HandlerError,
    >)
        ensures
            final(store)@ == old(store)@,
            r is Ok,
    {
        Ok(())
    }

    /// Handle a `Deposit` command. Accepted without effect.
    pub fn handle_deposit(&self, store: &mut MessageStore, deposit: &Command) -> (r: Result<
        (),
        HandlerError,
    >)
        ensures
            final(store)@ == old(store)@,
            r is Ok,
    {
        Ok(())
    }

    /// Handle a `Withdraw` command. Accepted without effect.
    pub fn handle_withdraw(&self, store: &mut MessageStore, withdraw: &Command) -> (r: Result<
        (),
        HandlerError,
    >)
        ensures
            final(store)@ == old(store)@,
            r is Ok,
    {
        Ok(())
    }

    /// Dispatch one message at a given time: exactly [`handle_model`].
    pub fn handle_at(&self, store: &mut MessageStore, message: &Message, now: i64) -> (r: Result<
        (),
        HandlerError,
    >)
        requires
            self.wf(),
            old(store).wf(),
            old(store)@.len() < i64::MAX as int,
        ensures
            final(store).wf(),
            final(store)@ == handle_model(old(store)@, message@, now).0,
            r == handle_model(old(store)@, message@, now).1,
    {
        let kind = kind_of_type(&message.message_type);
        let r = match kind {
            MessageKind::Open | MessageKind::Close | MessageKind::Deposit
                | MessageKind::Withdraw => {
                match Command::from_message(message.duplicate()) {
                    Err(_) => Err(HandlerError::Decode),
                    Ok(cmd) => match &cmd {
                        Command::Open { .. } => self.handle_open(store, &cmd, now),
                        Command::Close { .. } => self.handle_close(store, &cmd),
                        Command::Deposit { .. } => self.handle_deposit(store, &cmd),
                        Command::Withdraw { .. } => self.handle_withdraw(store, &cmd),
                    },
                }
            },
            _ => Err(HandlerError::UnsupportedType),
        };
        proof {
            let expect = handle_model(old(store)@, message@, now).1;
            if r is Ok {
                assert(r->Ok_0 == expect->Ok_0);
                assert(r == expect);
            } else {
                assert(r->Err_0 == expect->Err_0);
                assert(r == expect);
            }
        }
        r
    }

    /// Dispatch one message, stamping processed times from the injected
    /// clock: [`handle_model`] at the moment of the call.
    pub fn handle(&self, store: &mut MessageStore, message: &Message) -> (r: Result<
        (),
        HandlerError,
    >)
        requires
            self.wf(),
            old(store).wf(),
            old(store)@.len() < i64::MAX as int,
        ensures
            final(store).wf(),
            exists|t: i64|
                final(store)@ == (#[trigger] handle_model(old(store)@, message@, t)).0 && r
                    == handle_model(old(store)@, message@, t).1,
    {
        let now = self.clock.now();
        let r = self.handle_at(store, message, now);
        proof {
            assert(store@ == handle_model(old(store)@, message@, now).0 && r == handle_model(
                old(store)@,
                message@,
                now,
            ).1);
        }
        r
    }
}

// ------------------------------------------------------------------
// Idempotent replay
// ------------------------------------------------------------------

/// How many `Opened`-typed messages a stream holds.
pub open spec fn opened_count(msgs: Seq<MessageView>) -> nat
    decreases msgs.len(),
{
    if msgs.len() == 0 {
        0
    } else {
        opened_count(msgs.drop_last()) + if kind_of(msgs.last().message_type) is Opened {
            1nat
        } else {
            0nat
        }
    }
}

/// A stream with no `Opened` event folds to an account that is not open.
pub proof fn lemma_fold_unopened(id: Seq<char>, msgs: Seq<MessageView>)
    requires
        opened_count(msgs) == 0,
    ensures
        fold_account(id, msgs).opened_time is None,
    decreases msgs.len(),
{
    if msgs.len() != 0 {
        lemma_fold_unopened(id, msgs.drop_last());
    }
}

/// Idempotent replay: delivering the same `Open` command twice — as a
/// crash between dispatch and checkpoint can — produces exactly one
/// `Opened` event in the entity stream. The first delivery appends it;
/// the second finds the account open and succeeds without appending.
pub proof fn lemma_open_idempotent(log: Seq<MessageView>, m: MessageView, t1: i64, t2: i64)
    requires
        wf_log(log),
        log.len() < i64::MAX as int,
        kind_of(m.message_type) is Open,
        dec_cmd_payload(m.data) is Some,
        stream_decodable(stream_msgs(log, account_stream(dec_cmd_payload(m.data)->Some_0))),
        opened_count(stream_msgs(log, account_stream(dec_cmd_payload(m.data)->Some_0))) == 0,
    ensures
        ({
            let id = dec_cmd_payload(m.data)->Some_0;
            let first = handle_model(log, m, t1);
            let second = handle_model(first.0, m, t2);
            &&& first.1 == Ok::<(), HandlerError>(())
            &&& second.1 == Ok::<(), HandlerError>(())
            &&& second.0 == first.0
            &&& opened_count(stream_msgs(second.0, account_stream(id))) == 1
        }),
{
    let id = dec_cmd_payload(m.data)->Some_0;
    let stream = account_stream(id);
    let sm = stream_msgs(log, stream);
    lemma_fold_unopened(id, sm);
    crate::message_store::lemma_stream_last_position(log, stream);
    crate::message_store::lemma_stream_msgs_len(log, stream);
    crate::codec::lemma_opened_payload_round_trip(id, Some(t1));
    crate::message::lemma_kind_opened();
    let ev = crate::message_store::appended_msg(
        log,
        stream,
        "Opened"@,
        opened_payload(id, Some(t1)),
        None,
        t1,
    );
    let log1 = log.push(ev);
    crate::message_store::lemma_stream_msgs_push(log, stream, ev);
    let sm1 = stream_msgs(log1, stream);
    assert(sm1 == sm.push(ev));
    assert(sm1.drop_last() =~= sm);
    assert(sm1.last() == ev);
    // The first delivery appends the event.
    assert(handle_model(log, m, t1) == open_model(log, id, t1));
    assert(open_model(log, id, t1).0 == log1 && open_model(log, id, t1).1 == Ok::<
        (),
        HandlerError,
    >(()));
    // The appended event decodes, so the grown stream still hydrates.
    assert(stream_decodable(sm1)) by {
        assert forall|k: int|
            0 <= k < sm1.len() && kind_of((#[trigger] sm1[k]).message_type) is Opened implies
        crate::codec::dec_opened_payload(sm1[k].data) is Some by {
            if k < sm.len() {
                assert(sm1[k] == sm[k]);
            }
        }
    }
    // And it hydrates to an open account, so the second delivery is the
    // at-least-once-safe no-op.
    assert(fold_account(id, sm1).opened_time == Some(t1));
    assert(handle_model(log1, m, t2) == open_model(log1, id, t2));
    assert(open_model(log1, id, t2).0 == log1 && open_model(log1, id, t2).1 == Ok::<
        (),
        HandlerError,
    >(()));
    assert(opened_count(sm1) == 1);
}

} // verus!
