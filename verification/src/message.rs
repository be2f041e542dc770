//! The log message record and its mathematical view, the closed set of
//! known message kinds, and the stream/category naming rules.

use vstd::prelude::*;

use crate::text::{copy_text, text_is};

verus! {

/// Mathematical view of a [`Message`].
pub ghost struct MessageView {
    pub global_position: Option<i64>,
    pub position: Option<i64>,
    pub stream_name: Seq<char>,
    pub message_type: Seq<char>,
    pub data: Seq<char>,
    pub metadata: Option<Seq<char>>,
    pub time: i64,
}

/// An immutable record read from or written to the log.
///
/// `global_position` (position across the whole log, counted from 1) and
/// `position` (position within the message's own stream, counted from 0)
/// are both `None` exactly as long as the message has not been appended;
/// the store fills them in durably on append.
pub struct Message {
    pub global_position: Option<i64>,
    pub position: Option<i64>,
    pub stream_name: Vec<char>,
    pub message_type: Vec<char>,
    pub data: Vec<char>,
    pub metadata: Option<Vec<char>>,
    pub time: i64,
}

impl View for Message {
    type V = MessageView;

    open spec fn view(&self) -> MessageView {
        MessageView {
            global_position: self.global_position,
            position: self.position,
            stream_name: self.stream_name@,
            message_type: self.message_type@,
            data: self.data@,
            metadata: match self.metadata {
                Some(m) => Some(m@),
                None => None,
            },
            time: self.time,
        }
    }
}

impl Default for Message {
    /// A blank, not-yet-appended message.
    fn default() -> (r: Message)
        ensures
            r@.global_position is None,
            r@.position is None,
            r@.stream_name == Seq::<char>::empty(),
            r@.message_type == Seq::<char>::empty(),
            r@.data == Seq::<char>::empty(),
            r@.metadata is None,
            r@.time == 0,
    {
        Message {
            global_position: None,
            position: None,
            stream_name: Vec::new(),
            message_type: Vec::new(),
            data: Vec::new(),
            metadata: None,
            time: 0,
        }
    }
}

impl Message {
    /// A fresh copy of this message.
    pub fn duplicate(&self) -> (r: Message)
        ensures
            r@ == self@,
    {
        Message {
            global_position: self.global_position,
            position: self.position,
            stream_name: copy_text(&self.stream_name),
            message_type: copy_text(&self.message_type),
            data: copy_text(&self.data),
            metadata: match &self.metadata {
                Some(m) => Some(copy_text(m)),
                None => None,
            },
            time: self.time,
        }
    }
}

// ------------------------------------------------------------------
// Message kinds
// ------------------------------------------------------------------

/// The closed set of message types this runtime knows, plus a distinct
/// variant for everything else so that stream replay stays forward
/// compatible with future types.
#[derive(Clone, Copy, Debug, PartialEq, Eq, Structural)]
pub enum MessageKind {
    Open,
    Close,
    Deposit,
    Withdraw,
    Opened,
    Recorded,
    Unrecognized,
}

/// Which kind a message type tag denotes.
pub open spec fn kind_of(t: Seq<char>) -> MessageKind {
    if t == "Open"@ {
        MessageKind::Open
    } else if t == "Close"@ {
        MessageKind::Close
    } else if t == "Deposit"@ {
        MessageKind::Deposit
    } else if t == "Withdraw"@ {
        MessageKind::Withdraw
    } else if t == "Opened"@ {
        MessageKind::Opened
    } else if t == "Recorded"@ {
        MessageKind::Recorded
    } else {
        MessageKind::Unrecognized
    }
}

/// Classify a message type tag.
pub fn kind_of_type(t: &Vec<char>) -> (k: MessageKind)
    ensures
        k == kind_of(t@),
{
    if text_is(t, "Open") {
        MessageKind::Open
    } else if text_is(t, "Close") {
        MessageKind::Close
    } else if text_is(t, "Deposit") {
        MessageKind::Deposit
    } else if text_is(t, "Withdraw") {
        MessageKind::Withdraw
    } else if text_is(t, "Opened") {
        MessageKind::Opened
    } else if text_is(t, "Recorded") {
        MessageKind::Recorded
    } else {
        MessageKind::Unrecognized
    }
}

/// The `Opened` tag denotes the `Opened` kind (the tags are pairwise
/// distinct literals).
pub proof fn lemma_kind_opened()
    ensures
        kind_of("Opened"@) is Opened,
{
    reveal_strlit("Open");
    reveal_strlit("Close");
    reveal_strlit("Deposit");
    reveal_strlit("Withdraw");
    reveal_strlit("Opened");
    assert("Open"@.len() == 4 && "Close"@.len() == 5 && "Deposit"@.len() == 7 && "Withdraw"@.len()
        == 8 && "Opened"@.len() == 6);
}

// ------------------------------------------------------------------
// Stream names and categories
// ------------------------------------------------------------------

/// Index of the first `'-'` in a stream name, or its length if none.
pub open spec fn first_dash(s: Seq<char>) -> int
    decreases s.len(),
{
    if s.len() == 0 {
        0
    } else if s[0] == '-' {
        0
    } else {
        1 + first_dash(s.drop_first())
    }
}

/// The category of a stream: everything before the first `'-'`, or the
/// whole name when there is none. All streams sharing a category make up
/// that category's virtual, globally ordered stream.
pub open spec fn category_of(s: Seq<char>) -> Seq<char> {
    s.subrange(0, first_dash(s))
}

/// If the prefix before `i` is dash-free and `i` sits at the end or at a
/// dash, then the first dash is at `i`.
pub proof fn lemma_first_dash_is(s: Seq<char>, i: int)
    requires
        0 <= i <= s.len(),
        forall|k: int| 0 <= k < i ==> s[k] != '-',
        i == s.len() || s[i] == '-',
    ensures
        first_dash(s) == i,
    decreases i,
{
    if i == 0 {
    } else {
        assert(s[0] != '-');
        lemma_first_dash_is(s.drop_first(), i - 1);
    }
}

/// Extract the category of a stream name.
pub fn category_of_stream(s: &Vec<char>) -> (r: Vec<char>)
    ensures
        r@ == category_of(s@),
{
    let mut r: Vec<char> = Vec::new();
    let n = s.len();
    let mut i: usize = 0;
    while i < n
        invariant
            i <= n,
            n == s@.len(),
            r@ == s@.subrange(0, i as int),
            forall|k: int| 0 <= k < i ==> s@[k] != '-',
        decreases n - i,
    {
        if s[i] == '-' {
            proof {
                lemma_first_dash_is(s@, i as int);
            }
            return r;
        }
        r.push(s[i]);
        i = i + 1;
        proof {
            assert(r@ =~= s@.subrange(0, i as int));
        }
    }
    proof {
        lemma_first_dash_is(s@, n as int);
        assert(r@ =~= s@.subrange(0, first_dash(s@)));
    }
    r
}

/// Does the stream name belong to the category?
pub fn stream_in_category(stream: &Vec<char>, category: &Vec<char>) -> (r: bool)
    ensures
        r == (category_of(stream@) == category@),
{
    let c = category_of_stream(stream);
    crate::text::text_eq(&c, category)
}

} // verus!
