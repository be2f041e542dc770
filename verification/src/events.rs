//! Typed, validated views of log messages appended to an entity's own
//! stream, and the reserved `Recorded` checkpoint event.

use vstd::prelude::*;

use crate::codec::{
    dec_opened_payload, dec_recorded_payload, decode_opened_payload, decode_recorded_payload,
    encode_opened_payload, encode_recorded_payload, opened_payload, recorded_payload, DecodeError,
};
use crate::commands::{command_view_id, command_view_message, Command};
use crate::message::{Message, MessageView};

verus! {

/// An account was opened. Constructed by following an accepted `Open`
/// command, or decoded back from an entity stream during hydration.
pub struct Opened {
    pub account_id: Vec<char>,
    /// When the handler processed the command; empty until the handler
    /// stamps it from the injected clock, just before the append.
    pub processed_time: Option<i64>,
    /// The target stream's version, copied from the originating command.
    pub position: Option<i64>,
    /// The source message: the originating command's when following, the
    /// stream's own when decoded.
    pub message: Message,
}

impl Opened {
    /// Derive the event from an accepted command: copy the entity id and
    /// target version, leave the processed time to be stamped.
    pub fn follow(command: &Command) -> (r: Opened)
        ensures
            r.account_id@ == command_view_id(command@),
            r.processed_time is None,
            r.position == command_view_message(command@).position,
            r.message@ == command_view_message(command@),
    {
        Opened {
            account_id: crate::text::copy_text(command.account_id()),
            processed_time: None,
            position: command.position(),
            message: command.message().duplicate(),
        }
    }

    /// Decode an `Opened` event from a stream message. Fails exactly when
    /// the payload is malformed.
    pub fn from_message(message: Message) -> (r: Result<Opened, DecodeError>)
        ensures
            match dec_opened_payload(message@.data) {
                Some((id, t)) => r matches Ok(ev) && ev.account_id@ == id && ev.processed_time == t
                    && ev.position == message@.position && ev.message@ == message@,
                None => r is Err,
            },
    {
        let position = message.position;
        match decode_opened_payload(&message.data) {
            Ok((id, t)) => Ok(
                Opened { account_id: id, processed_time: t, position, message },
            ),
            Err(e) => Err(e),
        }
    }

    /// The message type under which this event is appended.
    pub fn event_name(&self) -> (r: &str)
        ensures
            r@ == "Opened"@,
    {
        "Opened"
    }

    /// This event's wire payload.
    pub fn to_payload(&self) -> (r: Vec<char>)
        ensures
            r@ == opened_payload(self.account_id@, self.processed_time),
    {
        encode_opened_payload(&self.account_id, self.processed_time)
    }
}

/// A consumer checkpoint: the last globally processed position, appended
/// to the consumer's reserved position stream.
pub struct Recorded {
    pub recorded_position: i64,
    pub processed_time: Option<i64>,
    /// The source message's stream position, `None` for a fresh event.
    pub position: Option<i64>,
    pub message: Message,
}

impl Recorded {
    /// A fresh checkpoint event, not yet appended.
    pub fn new(recorded_position: i64, processed_time: Option<i64>) -> (r: Recorded)
        ensures
            r.recorded_position == recorded_position,
            r.processed_time == processed_time,
            r.position is None,
            r.message@.position is None,
            r.message@.global_position is None,
    {
        Recorded { recorded_position, processed_time, position: None, message: Message::default() }
    }

    /// Decode a `Recorded` event from a checkpoint stream message. Fails
    /// exactly when the payload is malformed.
    pub fn from_message(message: Message) -> (r: Result<Recorded, DecodeError>)
        ensures
            match dec_recorded_payload(message@.data) {
                Some((p, t)) => r matches Ok(ev) && ev.recorded_position == p && ev.processed_time
                    == t && ev.position == message@.position && ev.message@ == message@,
                None => r is Err,
            },
    {
        let position = message.position;
        match decode_recorded_payload(&message.data) {
            Ok((p, t)) => Ok(Recorded { recorded_position: p, processed_time: t, position, message }),
            Err(e) => Err(e),
        }
    }

    /// The message type under which this event is appended.
    pub fn event_name(&self) -> (r: &str)
        ensures
            r@ == "Recorded"@,
    {
        "Recorded"
    }

    /// This event's wire payload.
    pub fn to_payload(&self) -> (r: Vec<char>)
        ensures
            r@ == recorded_payload(self.recorded_position, self.processed_time),
    {
        encode_recorded_payload(self.recorded_position, self.processed_time)
    }
}

/// An `Opened` event's payload decodes back to the same id and time.
pub proof fn lemma_opened_round_trip(id: Seq<char>, t: Option<i64>)
    ensures
        dec_opened_payload(opened_payload(id, t)) == Some((id, t)),
{
    crate::codec::lemma_opened_payload_round_trip(id, t);
}

/// A `Recorded` event's payload decodes back to the same position and
/// time.
pub proof fn lemma_recorded_round_trip(p: i64, t: Option<i64>)
    ensures
        dec_recorded_payload(recorded_payload(p, t)) == Some((p, t)),
{
    crate::codec::lemma_recorded_payload_round_trip(p, t);
}

} // verus!
