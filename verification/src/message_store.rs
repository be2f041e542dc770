//! The append-only, globally ordered message log, held in memory. It is
//! the canonical ordering authority the rest of the runtime builds on:
//! append with an optional expected-version check, ordered stream and
//! category reads with batching, and no reordering anywhere.

use vstd::prelude::*;

use crate::message::{category_of, Message, MessageView};
use crate::text::{copy_text, text_eq};

verus! {

// ------------------------------------------------------------------
// Log model
// ------------------------------------------------------------------

/// The views of a sequence of messages.
pub open spec fn msg_views(s: Seq<Message>) -> Seq<MessageView> {
    Seq::new(s.len(), |i: int| s[i]@)
}

/// The messages of one stream, in log order.
pub open spec fn stream_msgs(log: Seq<MessageView>, name: Seq<char>) -> Seq<MessageView>
    decreases log.len(),
{
    if log.len() == 0 {
        Seq::empty()
    } else {
        let rest = stream_msgs(log.drop_last(), name);
        if log.last().stream_name == name {
            rest.push(log.last())
        } else {
            rest
        }
    }
}

/// The current version of a stream: the stream position of its last
/// message, `-1` while the stream is empty.
pub open spec fn stream_version(log: Seq<MessageView>, name: Seq<char>) -> int {
    stream_msgs(log, name).len() - 1
}

/// Does `m` belong to the category read starting at global position
/// `from`?
pub open spec fn in_category_from(m: MessageView, cat: Seq<char>, from: int) -> bool {
    &&& category_of(m.stream_name) == cat
    &&& m.global_position matches Some(g) && g >= from
}

/// The messages of a category from a global position on, in log order.
pub open spec fn category_msgs_from(log: Seq<MessageView>, cat: Seq<char>, from: int) -> Seq<
    MessageView,
>
    decreases log.len(),
{
    if log.len() == 0 {
        Seq::empty()
    } else {
        let rest = category_msgs_from(log.drop_last(), cat, from);
        if in_category_from(log.last(), cat, from) {
            rest.push(log.last())
        } else {
            rest
        }
    }
}

/// At most the first `n` elements.
pub open spec fn take_at_most<T>(s: Seq<T>, n: int) -> Seq<T> {
    if n < 0 {
        Seq::empty()
    } else if n >= s.len() {
        s
    } else {
        s.take(n)
    }
}

/// All but at most the first `n` elements.
pub open spec fn skip_at_most<T>(s: Seq<T>, n: int) -> Seq<T> {
    if n < 0 {
        s
    } else if n > s.len() {
        Seq::empty()
    } else {
        s.skip(n)
    }
}

pub proof fn lemma_stream_msgs_push(log: Seq<MessageView>, name: Seq<char>, m: MessageView)
    ensures
        stream_msgs(log.push(m), name) == if m.stream_name == name {
            stream_msgs(log, name).push(m)
        } else {
            stream_msgs(log, name)
        },
{
    assert(log.push(m).drop_last() =~= log);
    assert(log.push(m).last() == m);
}

pub proof fn lemma_stream_msgs_len(log: Seq<MessageView>, name: Seq<char>)
    ensures
        stream_msgs(log, name).len() <= log.len(),
    decreases log.len(),
{
    if log.len() != 0 {
        lemma_stream_msgs_len(log.drop_last(), name);
    }
}

// ------------------------------------------------------------------
// Well-formedness
// ------------------------------------------------------------------

/// What the store guarantees of every appended message: global positions
/// are `1, 2, 3, ...` in log order, and each message's stream position
/// counts the earlier messages of its own stream, from zero.
pub open spec fn wf_log(log: Seq<MessageView>) -> bool {
    &&& log.len() <= i64::MAX as int
    &&& forall|i: int|
        0 <= i < log.len() ==> (#[trigger] log[i]).global_position == Some((i + 1) as i64)
    &&& forall|i: int|
        0 <= i < log.len() ==> (#[trigger] log[i]).position == Some(
            stream_msgs(log.take(i), log[i].stream_name).len() as i64,
        )
}

/// The message the store would append next to `stream`.
pub open spec fn appended_msg(
    log: Seq<MessageView>,
    stream: Seq<char>,
    typ: Seq<char>,
    data: Seq<char>,
    metadata: Option<Seq<char>>,
    time: i64,
) -> MessageView {
    MessageView {
        global_position: Some((log.len() + 1) as i64),
        position: Some(stream_msgs(log, stream).len() as i64),
        stream_name: stream,
        message_type: typ,
        data: data,
        metadata: metadata,
        time: time,
    }
}

pub proof fn lemma_wf_push(log: Seq<MessageView>, m: MessageView)
    requires
        wf_log(log),
        log.len() + 1 <= i64::MAX as int,
        m.global_position == Some((log.len() + 1) as i64),
        m.position == Some(stream_msgs(log, m.stream_name).len() as i64),
    ensures
        wf_log(log.push(m)),
{
    let l2 = log.push(m);
    assert forall|i: int| 0 <= i < l2.len() implies (#[trigger] l2[i]).global_position == Some(
        (i + 1) as i64,
    ) && l2[i].position == Some(stream_msgs(l2.take(i), l2[i].stream_name).len() as i64) by {
        if i < log.len() {
            assert(l2[i] == log[i]);
            assert(l2.take(i) =~= log.take(i));
        } else {
            assert(l2[i] == m);
            assert(l2.take(i) =~= log);
        }
    }
}

/// Everything but the last message of a well-formed log is well formed.
pub proof fn lemma_wf_prefix(log: Seq<MessageView>)
    requires
        wf_log(log),
        log.len() > 0,
    ensures
        wf_log(log.drop_last()),
{
    let prefix = log.drop_last();
    assert forall|i: int| 0 <= i < prefix.len() implies (#[trigger] prefix[i]).global_position
        == Some((i + 1) as i64) && prefix[i].position == Some(
        stream_msgs(prefix.take(i), prefix[i].stream_name).len() as i64,
    ) by {
        assert(prefix[i] == log[i]);
        assert(prefix.take(i) =~= log.take(i));
    }
}

/// In a well-formed log, the last message of a stream sits at stream
/// position `len - 1`: the stream's version is its length minus one.
pub proof fn lemma_stream_last_position(log: Seq<MessageView>, name: Seq<char>)
    requires
        wf_log(log),
    ensures
        stream_msgs(log, name).len() > 0 ==> stream_msgs(log, name).last().position == Some(
            (stream_msgs(log, name).len() - 1) as i64,
        ),
    decreases log.len(),
{
    if log.len() > 0 {
        lemma_wf_prefix(log);
        lemma_stream_last_position(log.drop_last(), name);
        lemma_stream_msgs_len(log, name);
        if log.last().stream_name == name {
            assert(log.last() == log[log.len() - 1]);
            assert(log.take(log.len() - 1) =~= log.drop_last());
        }
    }
}

// ------------------------------------------------------------------
// Write model
// ------------------------------------------------------------------

/// Failure of an append.
#[derive(Clone, Copy, Debug, PartialEq, Eq, Structural)]
pub enum WriteError {
    /// The stream's current version was not the expected one: another
    /// append won a race on this stream.
    VersionConflict,
}

/// Outcome of an append at the model level.
pub ghost struct WriteModel {
    pub log: Seq<MessageView>,
    pub ok: bool,
}

/// What an append does: with an expected version that does not match the
/// stream's current version it is refused and the log is unchanged;
/// otherwise the message is appended with its positions filled in.
pub open spec fn write_model(
    log: Seq<MessageView>,
    stream: Seq<char>,
    typ: Seq<char>,
    data: Seq<char>,
    metadata: Option<Seq<char>>,
    time: i64,
    expected_version: Option<i64>,
) -> WriteModel {
    if expected_version matches Some(e) && e != stream_version(log, stream) {
        WriteModel { log: log, ok: false }
    } else {
        WriteModel { log: log.push(appended_msg(log, stream, typ, data, metadata, time)), ok: true }
    }
}

/// The view of an optional metadata argument.
pub open spec fn meta_view(m: Option<&Vec<char>>) -> Option<Seq<char>> {
    match m {
        Some(v) => Some(v@),
        None => None,
    }
}

// ------------------------------------------------------------------
// The store
// ------------------------------------------------------------------

/// The in-memory message store.
pub struct MessageStore {
    log: Vec<Message>,
}

impl View for MessageStore {
    type V = Seq<MessageView>;

    closed spec fn view(&self) -> Seq<MessageView> {
        msg_views(self.log@)
    }
}

impl MessageStore {
    /// The store's invariant; see [`wf_log`].
    pub open spec fn wf(&self) -> bool {
        wf_log(self@)
    }

    /// An empty log.
    pub fn new() -> (s: Self)
        ensures
            s@ == Seq::<MessageView>::empty(),
            s.wf(),
    {
        let s = MessageStore { log: Vec::new() };
        proof {
            assert(s@ =~= Seq::<MessageView>::empty());
        }
        s
    }

    /// How many messages the whole log holds.
    pub fn len(&self) -> (n: usize)
        ensures
            n == self@.len(),
    {
        self.log.len()
    }

    /// How many messages a stream holds.
    fn count_stream(&self, name: &Vec<char>) -> (n: usize)
        ensures
            n == stream_msgs(self@, name@).len(),
    {
        let mut n: usize = 0;
        let mut i: usize = 0;
        while i < self.log.len()
            invariant
                i <= self.log@.len(),
                self@.len() == self.log@.len(),
                n == stream_msgs(self@.take(i as int), name@).len(),
                n <= i,
            decreases self.log@.len() - i,
        {
            let m = &self.log[i];
            proof {
                assert(self@.take(i + 1).drop_last() =~= self@.take(i as int));
                assert(self@.take(i + 1).last() == self@[i as int]);
            }
            if text_eq(&m.stream_name, name) {
                n = n + 1;
            }
            i = i + 1;
        }
        proof {
            assert(self@.take(self@.len() as int) =~= self@);
        }
        n
    }

    /// Append one message to a stream, with an optional expected-version
    /// check.
    ///
    /// `expected_version` is the version the caller believes the stream
    /// has (`-1` for a stream it believes empty); when it does not match,
    /// nothing is appended and `VersionConflict` comes back, so two
    /// appends racing from the same hydrated version cannot both win.
    pub fn write_message(
        &mut self,
        stream_name: &Vec<char>,
        message_type: &Vec<char>,
        data: &Vec<char>,
        metadata: Option<&Vec<char>>,
        expected_version: Option<i64>,
        now: i64,
    ) -> (r: Result<(), WriteError>)
        requires
            old(self).wf(),
            old(self)@.len() < i64::MAX as int,
        ensures
            final(self).wf(),
            ({
                let w = write_model(
                    old(self)@,
                    stream_name@,
                    message_type@,
                    data@,
                    meta_view(metadata),
                    now,
                    expected_version,
                );
                final(self)@ == w.log && (r is Ok <==> w.ok) && (r is Err ==> r->Err_0
                    == WriteError::VersionConflict)
            }),
    {
        proof {
            lemma_stream_msgs_len(self@, stream_name@);
        }
        let count = self.count_stream(stream_name);
        let current: i64 = count as i64 - 1;
        match expected_version {
            Some(e) => {
                if e != current {
                    return Err(WriteError::VersionConflict);
                }
            },
            None => {},
        }
        let gp: i64 = self.log.len() as i64 + 1;
        let m = Message {
            global_position: Some(gp),
            position: Some(count as i64),
            stream_name: copy_text(stream_name),
            message_type: copy_text(message_type),
            data: copy_text(data),
            metadata: match metadata {
                Some(md) => Some(copy_text(md)),
                None => None,
            },
            time: now,
        };
        proof {
            assert(m@ == appended_msg(
                self@,
                stream_name@,
                message_type@,
                data@,
                meta_view(metadata),
                now,
            ));
            lemma_wf_push(self@, m@);
        }
        let ghost prev = self@;
        self.log.push(m);
        proof {
            assert(self@ =~= prev.push(m@));
        }
        Ok(())
    }
}

// ------------------------------------------------------------------
// Reads
// ------------------------------------------------------------------

proof fn lemma_push_skip<T>(s: Seq<T>, m: T, p: int)
    requires
        0 <= p <= s.len(),
    ensures
        s.push(m).skip(p) == s.skip(p).push(m),
{
    assert(s.push(m).skip(p) =~= s.skip(p).push(m));
}

proof fn lemma_push_take<T>(s: Seq<T>, m: T, n: int)
    requires
        0 <= n <= s.len(),
    ensures
        s.push(m).take(n) == s.take(n),
{
    assert(s.push(m).take(n) =~= s.take(n));
}

impl MessageStore {
    /// Read an ordered batch of a stream's messages: at most `batch_size`
    /// of them, skipping the first `position` (a stream position: the
    /// stream's messages are at positions `0, 1, 2, ...`).
    pub fn get_stream_messages(
        &self,
        stream_name: &Vec<char>,
        position: i64,
        batch_size: usize,
    ) -> (r: Vec<Message>)
        requires
            position >= 0,
        ensures
            msg_views(r@) == take_at_most(
                skip_at_most(stream_msgs(self@, stream_name@), position as int),
                batch_size as int,
            ),
    {
        let mut r: Vec<Message> = Vec::new();
        let mut seen: usize = 0;
        let mut i: usize = 0;
        while i < self.log.len()
            invariant
                i <= self.log@.len(),
                self@.len() == self.log@.len(),
                position >= 0,
                seen == stream_msgs(self@.take(i as int), stream_name@).len(),
                seen <= i,
                r@.len() <= batch_size,
                msg_views(r@) == take_at_most(
                    skip_at_most(stream_msgs(self@.take(i as int), stream_name@), position as int),
                    batch_size as int,
                ),
            decreases self.log@.len() - i,
        {
            let m = &self.log[i];
            let ghost sm = stream_msgs(self@.take(i as int), stream_name@);
            proof {
                assert(self@.take(i + 1).drop_last() =~= self@.take(i as int));
                assert(self@.take(i + 1).last() == self@[i as int]);
            }
            if text_eq(&m.stream_name, stream_name) {
                let ghost sm2 = stream_msgs(self@.take(i + 1), stream_name@);
                proof {
                    assert(sm2 == sm.push(self@[i as int]));
                }
                if seen as u64 >= position as u64 {
                    proof {
                        lemma_push_skip(sm, self@[i as int], position as int);
                    }
                    if r.len() < batch_size {
                        let ghost old_r = r@;
                        r.push(m.duplicate());
                        proof {
                            assert(msg_views(r@) =~= msg_views(old_r).push(self@[i as int]));
                            assert(skip_at_most(sm2, position as int) == skip_at_most(
                                sm,
                                position as int,
                            ).push(self@[i as int]));
                            assert(skip_at_most(sm, position as int).len() == msg_views(
                                old_r,
                            ).len());
                            assert(msg_views(r@) =~= take_at_most(
                                skip_at_most(sm2, position as int),
                                batch_size as int,
                            ));
                        }
                    } else {
                        proof {
                            let sk = skip_at_most(sm, position as int);
                            let sk2 = skip_at_most(sm2, position as int);
                            assert(sk2 == sk.push(self@[i as int]));
                            assert(sk.len() >= batch_size);
                            lemma_push_take(sk, self@[i as int], batch_size as int);
                            assert(take_at_most(sk2, batch_size as int) == take_at_most(
                                sk,
                                batch_size as int,
                            ));
                        }
                    }
                } else {
                    // Still before the requested start: the skipped part
                    // swallows this message.
                    proof {
                        assert(sm.len() < position);
                        assert(skip_at_most(sm2, position as int) =~= skip_at_most(
                            sm,
                            position as int,
                        ));
                    }
                }
                seen = seen + 1;
            }
            i = i + 1;
        }
        proof {
            assert(self@.take(self@.len() as int) =~= self@);
        }
        r
    }

    /// Read an ordered batch of a category's messages: at most
    /// `batch_size` messages whose stream belongs to the category and
    /// whose global position is at least `position`.
    pub fn get_category_messages(
        &self,
        category: &Vec<char>,
        position: i64,
        batch_size: usize,
    ) -> (r: Vec<Message>)
        ensures
            msg_views(r@) == take_at_most(
                category_msgs_from(self@, category@, position as int),
                batch_size as int,
            ),
    {
        let mut r: Vec<Message> = Vec::new();
        let mut i: usize = 0;
        while i < self.log.len()
            invariant
                i <= self.log@.len(),
                self@.len() == self.log@.len(),
                r@.len() <= batch_size,
                msg_views(r@) == take_at_most(
                    category_msgs_from(self@.take(i as int), category@, position as int),
                    batch_size as int,
                ),
            decreases self.log@.len() - i,
        {
            let m = &self.log[i];
            let ghost cm = category_msgs_from(self@.take(i as int), category@, position as int);
            proof {
                assert(self@.take(i + 1).drop_last() =~= self@.take(i as int));
                assert(self@.take(i + 1).last() == self@[i as int]);
            }
            let ghost cm2 = category_msgs_from(self@.take(i + 1), category@, position as int);
            let wanted = crate::message::stream_in_category(&m.stream_name, category) && (match m
                .global_position {
                Some(g) => g >= position,
                None => false,
            });
            if wanted {
                proof {
                    assert(in_category_from(self@[i as int], category@, position as int));
                    assert(cm2 == cm.push(self@[i as int]));
                }
                if r.len() < batch_size {
                    let ghost old_r = r@;
                    r.push(m.duplicate());
                    proof {
                        assert(msg_views(r@) =~= msg_views(old_r).push(self@[i as int]));
                        assert(cm.len() == msg_views(old_r).len());
                        assert(msg_views(r@) =~= take_at_most(cm2, batch_size as int));
                    }
                } else {
                    proof {
                        assert(cm.len() >= batch_size);
                        lemma_push_take(cm, self@[i as int], batch_size as int);
                        assert(take_at_most(cm2, batch_size as int) == take_at_most(
                            cm,
                            batch_size as int,
                        ));
                    }
                }
            } else {
                proof {
                    assert(!in_category_from(self@[i as int], category@, position as int));
                    assert(cm2 == cm);
                }
            }
            i = i + 1;
        }
        proof {
            assert(self@.take(self@.len() as int) =~= self@);
        }
        r
    }

    /// The last message of a stream, if the stream has any.
    pub fn get_last_stream_message(&self, stream_name: &Vec<char>) -> (r: Option<Message>)
        ensures
            ({
                let sm = stream_msgs(self@, stream_name@);
                match r {
                    Some(m) => sm.len() > 0 && m@ == sm.last(),
                    None => sm.len() == 0,
                }
            }),
    {
        let mut best: Option<usize> = None;
        let mut i: usize = 0;
        while i < self.log.len()
            invariant
                i <= self.log@.len(),
                self@.len() == self.log@.len(),
                ({
                    let sm = stream_msgs(self@.take(i as int), stream_name@);
                    match best {
                        Some(j) => j < i && sm.len() > 0 && self@[j as int] == sm.last(),
                        None => sm.len() == 0,
                    }
                }),
            decreases self.log@.len() - i,
        {
            let m = &self.log[i];
            proof {
                assert(self@.take(i + 1).drop_last() =~= self@.take(i as int));
                assert(self@.take(i + 1).last() == self@[i as int]);
            }
            if text_eq(&m.stream_name, stream_name) {
                best = Some(i);
            }
            i = i + 1;
        }
        proof {
            assert(self@.take(self@.len() as int) =~= self@);
        }
        match best {
            Some(j) => Some(self.log[j].duplicate()),
            None => None,
        }
    }
}

// ------------------------------------------------------------------
// Ordering of category reads
// ------------------------------------------------------------------

/// What a category read hands out is strictly ascending in global
/// position, every message in it belongs to the category read, and no
/// global position exceeds the log's length. The consumer loop dispatches
/// a read batch front to back, so messages are dispatched in ascending
/// global-position order.
pub proof fn lemma_category_read_sorted(log: Seq<MessageView>, cat: Seq<char>, from: int)
    requires
        wf_log(log),
    ensures
        ({
            let cm = category_msgs_from(log, cat, from);
            &&& forall|a: int, b: int|
                0 <= a < b < cm.len() ==> (#[trigger] cm[a]).global_position->Some_0 < (
                #[trigger] cm[b]).global_position->Some_0
            &&& forall|k: int| 0 <= k < cm.len() ==> in_category_from(#[trigger] cm[k], cat, from)
            &&& forall|k: int|
                0 <= k < cm.len() ==> (#[trigger] cm[k]).global_position->Some_0 <= log.len()
        }),
    decreases log.len(),
{
    if log.len() != 0 {
        let prefix = log.drop_last();
        assert(wf_log(prefix)) by {
            assert forall|i: int| 0 <= i < prefix.len() implies (
            #[trigger] prefix[i]).global_position == Some((i + 1) as i64) && prefix[i].position
                == Some(stream_msgs(prefix.take(i), prefix[i].stream_name).len() as i64) by {
                assert(prefix[i] == log[i]);
                assert(prefix.take(i) =~= log.take(i));
            }
        }
        lemma_category_read_sorted(prefix, cat, from);
        let cm = category_msgs_from(log, cat, from);
        let cmp = category_msgs_from(prefix, cat, from);
        assert(log.last() == log[log.len() - 1]);
        assert forall|k: int| 0 <= k < cmp.len() implies (#[trigger] cmp[k]).global_position->Some_0
            <= prefix.len() by {}
        if in_category_from(log.last(), cat, from) {
            assert(cm == cmp.push(log.last()));
            assert(log.last().global_position == Some((log.len()) as i64));
        } else {
            assert(cm == cmp);
        }
    }
}

// ------------------------------------------------------------------
// Version-conflict safety
// ------------------------------------------------------------------

/// Appending to a stream raises its version by one.
pub proof fn lemma_append_bumps_version(
    log: Seq<MessageView>,
    stream: Seq<char>,
    m: MessageView,
)
    requires
        m.stream_name == stream,
    ensures
        stream_version(log.push(m), stream) == stream_version(log, stream) + 1,
{
    lemma_stream_msgs_push(log, stream, m);
}

/// Two concurrent handlers that both hydrated the same entity at version
/// `v` and both attempt to append with `v` as the expected version get
/// exactly one success: the first append is accepted and moves the stream
/// to version `v + 1`, so the second is refused with a version conflict
/// and leaves the log unchanged.
pub proof fn lemma_version_conflict_safety(
    log: Seq<MessageView>,
    stream: Seq<char>,
    t1: Seq<char>,
    d1: Seq<char>,
    m1: Option<Seq<char>>,
    time1: i64,
    t2: Seq<char>,
    d2: Seq<char>,
    m2: Option<Seq<char>>,
    time2: i64,
    v: i64,
)
    requires
        v == stream_version(log, stream),
    ensures
        ({
            let w1 = write_model(log, stream, t1, d1, m1, time1, Some(v));
            let w2 = write_model(w1.log, stream, t2, d2, m2, time2, Some(v));
            w1.ok && !w2.ok && w2.log == w1.log
        }),
{
    let w1 = write_model(log, stream, t1, d1, m1, time1, Some(v));
    lemma_append_bumps_version(log, stream, appended_msg(log, stream, t1, d1, m1, time1));
    assert(stream_version(w1.log, stream) == v + 1);
}

} // verus!
