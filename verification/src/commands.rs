//! Typed, validated views of log messages whose stream belongs to a
//! command category. Decoding is a closed routing table over the known
//! command kinds; a command carries its target entity id and the source
//! message, whose stream position gives the target stream's version when
//! known.

use vstd::prelude::*;

use crate::codec::{
    dec_amount_payload, dec_cmd_payload, decode_amount_payload, decode_cmd_payload, DecodeError,
};
use crate::message::{kind_of, Message, MessageKind, MessageView};

verus! {

/// Mathematical view of a [`Command`].
pub ghost enum CommandView {
    Open { account_id: Seq<char>, message: MessageView },
    Close { account_id: Seq<char>, message: MessageView },
    Deposit { account_id: Seq<char>, amount: u64, message: MessageView },
    Withdraw { account_id: Seq<char>, amount: u64, message: MessageView },
}

/// A decoded command, immutable once constructed.
pub enum Command {
    Open { account_id: Vec<char>, message: Message },
    Close { account_id: Vec<char>, message: Message },
    Deposit { account_id: Vec<char>, amount: u64, message: Message },
    Withdraw { account_id: Vec<char>, amount: u64, message: Message },
}

impl View for Command {
    type V = CommandView;

    open spec fn view(&self) -> CommandView {
        match self {
            Command::Open { account_id, message } => CommandView::Open {
                account_id: account_id@,
                message: message@,
            },
            Command::Close { account_id, message } => CommandView::Close {
                account_id: account_id@,
                message: message@,
            },
            Command::Deposit { account_id, amount, message } => CommandView::Deposit {
                account_id: account_id@,
                amount: *amount,
                message: message@,
            },
            Command::Withdraw { account_id, amount, message } => CommandView::Withdraw {
                account_id: account_id@,
                amount: *amount,
                message: message@,
            },
        }
    }
}

/// The entity id a command view targets.
pub open spec fn command_view_id(c: CommandView) -> Seq<char> {
    match c {
        CommandView::Open { account_id, .. } => account_id,
        CommandView::Close { account_id, .. } => account_id,
        CommandView::Deposit { account_id, .. } => account_id,
        CommandView::Withdraw { account_id, .. } => account_id,
    }
}

/// The source message of a command view.
pub open spec fn command_view_message(c: CommandView) -> MessageView {
    match c {
        CommandView::Open { message, .. } => message,
        CommandView::Close { message, .. } => message,
        CommandView::Deposit { message, .. } => message,
        CommandView::Withdraw { message, .. } => message,
    }
}

/// Decode a message into a command: route on the message type, then
/// decode the payload fields that kind requires. `None` stands for both
/// an unknown type and a malformed payload; the executable constructor
/// tells the two apart.
pub open spec fn dec_command(m: MessageView) -> Option<CommandView> {
    match kind_of(m.message_type) {
        MessageKind::Open => match dec_cmd_payload(m.data) {
            Some(id) => Some(CommandView::Open { account_id: id, message: m }),
            None => None,
        },
        MessageKind::Close => match dec_cmd_payload(m.data) {
            Some(id) => Some(CommandView::Close { account_id: id, message: m }),
            None => None,
        },
        MessageKind::Deposit => match dec_amount_payload(m.data) {
            Some((id, amount)) => Some(
                CommandView::Deposit { account_id: id, amount: amount, message: m },
            ),
            None => None,
        },
        MessageKind::Withdraw => match dec_amount_payload(m.data) {
            Some((id, amount)) => Some(
                CommandView::Withdraw { account_id: id, amount: amount, message: m },
            ),
            None => None,
        },
        _ => None,
    }
}

impl Command {
    /// Decode a message of one of the four command kinds.
    ///
    /// Fails exactly when the payload cannot be decoded into the fields
    /// the kind requires. The caller routes on the message type first, so
    /// this requires a command kind.
    pub fn from_message(message: Message) -> (r: Result<Command, DecodeError>)
        requires
            kind_of(message@.message_type) is Open || kind_of(message@.message_type) is Close
                || kind_of(message@.message_type) is Deposit || kind_of(message@.message_type)
                is Withdraw,
        ensures
            match dec_command(message@) {
                Some(cv) => r matches Ok(c) && c@ == cv,
                None => r is Err,
            },
    {
        let kind = crate::message::kind_of_type(&message.message_type);
        match kind {
            MessageKind::Open => match decode_cmd_payload(&message.data) {
                Ok(id) => Ok(Command::Open { account_id: id, message }),
                Err(e) => Err(e),
            },
            MessageKind::Close => match decode_cmd_payload(&message.data) {
                Ok(id) => Ok(Command::Close { account_id: id, message }),
                Err(e) => Err(e),
            },
            MessageKind::Deposit => match decode_amount_payload(&message.data) {
                Ok((id, amount)) => Ok(Command::Deposit { account_id: id, amount, message }),
                Err(e) => Err(e),
            },
            _ => match decode_amount_payload(&message.data) {
                Ok((id, amount)) => Ok(Command::Withdraw { account_id: id, amount, message }),
                Err(e) => Err(e),
            },
        }
    }

    /// The target entity id.
    pub fn account_id(&self) -> (r: &Vec<char>)
        ensures
            r@ == command_view_id(self@),
    {
        match self {
            Command::Open { account_id, .. } => account_id,
            Command::Close { account_id, .. } => account_id,
            Command::Deposit { account_id, .. } => account_id,
            Command::Withdraw { account_id, .. } => account_id,
        }
    }

    /// The target stream's version as far as the source message knows it:
    /// its stream position, `None` for a message not yet appended.
    pub fn position(&self) -> (r: Option<i64>)
        ensures
            r == command_view_message(self@).position,
    {
        match self {
            Command::Open { message, .. } => message.position,
            Command::Close { message, .. } => message.position,
            Command::Deposit { message, .. } => message.position,
            Command::Withdraw { message, .. } => message.position,
        }
    }

    /// The source message.
    pub fn message(&self) -> (r: &Message)
        ensures
            r@ == command_view_message(self@),
    {
        match self {
            Command::Open { message, .. } => message,
            Command::Close { message, .. } => message,
            Command::Deposit { message, .. } => message,
            Command::Withdraw { message, .. } => message,
        }
    }
}

/// A message carrying an encoded `Open` payload decodes to the `Open`
/// command with the same id.
pub proof fn lemma_open_command_round_trip(id: Seq<char>, m: MessageView)
    requires
        m.message_type == "Open"@,
        m.data == crate::codec::cmd_payload(id),
    ensures
        dec_command(m) == Some(CommandView::Open { account_id: id, message: m }),
{
    crate::codec::lemma_cmd_payload_round_trip(id);
}

/// A message carrying an encoded `Deposit` payload decodes to the
/// `Deposit` command with the same id and amount.
pub proof fn lemma_deposit_command_round_trip(id: Seq<char>, amount: u64, m: MessageView)
    requires
        m.message_type == "Deposit"@,
        m.data == crate::codec::amount_payload(id, amount),
    ensures
        dec_command(m) == Some(CommandView::Deposit { account_id: id, amount: amount, message: m }),
{
    reveal_strlit("Deposit");
    reveal_strlit("Open");
    reveal_strlit("Close");
    assert(m.message_type != "Open"@ && m.message_type != "Close"@) by {
        assert("Deposit"@.len() == 7 && "Open"@.len() == 4 && "Close"@.len() == 5);
    }
    crate::codec::lemma_amount_payload_round_trip(id, amount);
}

} // verus!
