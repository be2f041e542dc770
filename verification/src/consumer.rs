//! The consumer loop over one category: recover the checkpoint, then
//! repeatedly read an ordered batch from the category, dispatch every
//! message front to back, and advance the position store after each fully
//! successful dispatch — never before. A batch shorter than the batch
//! size signals the tail; the caller then waits out the polling interval
//! and polls again.

use vstd::prelude::*;

use crate::codec::DecodeError;
use crate::handler::{handle_model, AccountHandler};
use crate::message::MessageView;
use crate::message_store::{
    category_msgs_from, in_category_from, lemma_category_read_sorted, take_at_most, wf_log,
    MessageStore,
};
use crate::position_store::{checkpoint_log, PositionStore, PositionStoreView};

verus! {

/// The consumer's state while a batch runs, at the model level.
pub ghost struct StepState {
    pub log: Seq<MessageView>,
    /// Last global position seen by the read cursor (advanced on every
    /// message, handled or not, so a failed message is retried only after
    /// a restart re-reads from the durable checkpoint).
    pub cursor: i64,
    /// The position store's in-memory counter (advanced only on success).
    pub ps_position: i64,
    /// Global positions dispatched successfully, in dispatch order.
    pub dispatched: Seq<i64>,
    /// How many messages failed to dispatch.
    pub failures: nat,
}

/// Dispatch one message: handle it, and on success advance the position
/// store (which checkpoints when its batching predicate fires). On
/// failure the position store stays put, so the message is seen again
/// after a restart. The read cursor moves either way.
pub open spec fn dispatch_one(s: StepState, m: MessageView, ps: PositionStoreView, now: i64) -> StepState {
    let h = handle_model(s.log, m, now);
    let g = m.global_position->Some_0;
    if h.1 is Ok {
        StepState {
            log: checkpoint_log(h.0, ps, g, now),
            cursor: g,
            ps_position: g,
            dispatched: s.dispatched.push(g),
            failures: s.failures,
        }
    } else {
        StepState { log: h.0, cursor: g, ps_position: s.ps_position, dispatched: s.dispatched, failures: s.failures + 1 }
    }
}

/// Dispatch a whole batch, front to back.
pub open spec fn run_batch(s: StepState, msgs: Seq<MessageView>, ps: PositionStoreView, now: i64) -> StepState
    decreases msgs.len(),
{
    if msgs.len() == 0 {
        s
    } else {
        dispatch_one(run_batch(s, msgs.drop_last(), ps, now), msgs.last(), ps, now)
    }
}

/// What one poll step does, at the model level: dispatch the batch the
/// category read returns for the cursor, front to back.
pub open spec fn poll_model(
    log: Seq<MessageView>,
    cat: Seq<char>,
    cursor: i64,
    ps: PositionStoreView,
    batch: int,
    now: i64,
) -> StepState {
    let msgs = take_at_most(category_msgs_from(log, cat, cursor + 1), batch);
    let s0 = StepState {
        log: log,
        cursor: cursor,
        ps_position: ps.position,
        dispatched: Seq::<i64>::empty(),
        failures: 0,
    };
    run_batch(s0, msgs, ps, now)
}

/// What one poll step found and did.
pub struct PollOutcome {
    /// Messages dispatched successfully.
    pub processed: usize,
    /// Messages whose dispatch failed (reported, position not advanced).
    pub failed: usize,
    /// The read returned fewer messages than the batch size: the tail is
    /// reached and the caller should idle out the polling interval.
    pub reached_tail: bool,
}

/// A single consumer loop for one category subscription.
pub struct CommandsConsumer {
    pub category: Vec<char>,
    pub position_store: PositionStore,
    pub handler: AccountHandler,
    /// Last global position seen (the read cursor); reads start after it.
    pub cursor: i64,
    /// How many messages each category read asks for.
    pub batch_size: usize,
}

impl CommandsConsumer {
    pub open spec fn wf(&self) -> bool {
        &&& self.position_store.wf()
        &&& self.handler.wf()
        &&& self.batch_size >= 1
        &&& self.cursor >= 0
    }

    /// A consumer for one category, reading from the beginning until
    /// [`CommandsConsumer::start`] recovers a checkpoint.
    pub fn new(category: Vec<char>, position_store: PositionStore, handler: AccountHandler) -> (c:
        CommandsConsumer)
        requires
            position_store.wf(),
            handler.wf(),
        ensures
            c.wf(),
            c.category@ == category@,
            c.position_store == position_store,
            c.cursor == 0,
            c.batch_size == 1000,
    {
        CommandsConsumer { category, position_store, handler, cursor: 0, batch_size: 1000 }
    }

    /// Catch-up starts here: recover the last checkpoint and place the
    /// read cursor on it, so reading resumes just after the last position
    /// fully processed before the restart. Fails only on a checkpoint
    /// whose payload cannot be decoded.
    pub fn start(&mut self, store: &MessageStore) -> (r: Result<(), DecodeError>)
        requires
            old(self).wf(),
        ensures
            final(self).wf() == (final(self).cursor >= 0 && old(self).wf()),
            final(self).category == old(self).category,
            final(self).position_store == old(self).position_store,
            final(self).handler == old(self).handler,
            final(self).batch_size == old(self).batch_size,
            ({
                let sm = crate::message_store::stream_msgs(
                    store@,
                    crate::position_store::position_stream(
                        old(self).position_store@.category,
                        old(self).position_store@.identifier,
                    ),
                );
                if sm.len() == 0 {
                    r is Ok && final(self).cursor == 0
                } else {
                    match crate::codec::dec_recorded_payload(sm.last().data) {
                        Some((p, t)) => r is Ok && final(self).cursor == p,
                        None => r is Err && final(self).cursor == old(self).cursor,
                    }
                }
            }),
    {
        match self.position_store.get(store) {
            Ok(p) => {
                self.cursor = p;
                Ok(())
            },
            Err(e) => Err(e),
        }
    }

    /// One pass of the shared read path: read the next ordered batch of
    /// the category after the cursor and dispatch it front to back,
    /// advancing the position store after each success and never past a
    /// failure. Exactly [`run_batch`] on the batch the read returned; a
    /// short batch reports the tail.
    pub fn poll_step(&mut self, store: &mut MessageStore, now: i64) -> (r: PollOutcome)
        requires
            old(self).wf(),
            old(store).wf(),
            old(self).cursor < i64::MAX as int,
            old(store)@.len() + 2 * old(self).batch_size <= i64::MAX as int,
        ensures
            final(self).wf(),
            final(store).wf(),
            final(self).category == old(self).category,
            final(self).handler == old(self).handler,
            final(self).batch_size == old(self).batch_size,
            final(self).position_store@.category == old(self).position_store@.category,
            final(self).position_store@.identifier == old(self).position_store@.identifier,
            final(self).position_store@.interval == old(self).position_store@.interval,
            ({
                let msgs = take_at_most(
                    category_msgs_from(old(store)@, old(self).category@, old(self).cursor + 1),
                    old(self).batch_size as int,
                );
                let s0 = StepState {
                    log: old(store)@,
                    cursor: old(self).cursor,
                    ps_position: old(self).position_store@.position,
                    dispatched: Seq::<i64>::empty(),
                    failures: 0,
                };
                let s1 = run_batch(s0, msgs, old(self).position_store@, now);
                &&& final(store)@ == s1.log
                &&& final(self).cursor == s1.cursor
                &&& final(self).position_store@.position == s1.ps_position
                &&& r.processed == s1.dispatched.len()
                &&& r.failed == s1.failures
                &&& r.processed + r.failed == msgs.len()
                &&& r.reached_tail == (msgs.len() < old(self).batch_size)
            }),
    {
        let ghost base_log = store@;
        let ghost ps0 = self.position_store@;
        let ghost cat = self.category@;
        let ghost s0 = StepState {
            log: base_log,
            cursor: self.cursor,
            ps_position: ps0.position,
            dispatched: Seq::<i64>::empty(),
            failures: 0,
        };
        let from: i64 = self.cursor + 1;
        let batch = store.get_category_messages(&self.category, from, self.batch_size);
        let ghost msgs = take_at_most(
            category_msgs_from(base_log, cat, from as int),
            self.batch_size as int,
        );
        proof {
            lemma_category_read_sorted(base_log, cat, from as int);
            assert(crate::message_store::msg_views(batch@) == msgs);
            assert forall|k: int| 0 <= k < batch@.len() implies (#[trigger] batch@[k])@ == msgs[k]
                && in_category_from(msgs[k], cat, from as int) by {
                assert(crate::message_store::msg_views(batch@)[k] == batch@[k]@);
                assert(msgs[k] == category_msgs_from(base_log, cat, from as int)[k]);
            }
        }
        let mut processed: usize = 0;
        let mut failed: usize = 0;
        let mut j: usize = 0;
        while j < batch.len()
            invariant
                j <= batch@.len(),
                batch@.len() <= old(self).batch_size,
                batch@.len() <= msgs.len(),
                msgs.len() <= batch@.len(),
                forall|k: int|
                    0 <= k < batch@.len() ==> (#[trigger] batch@[k])@ == msgs[k]
                        && in_category_from(msgs[k], cat, from as int),
                from == old(self).cursor + 1,
                from >= 1,
                base_log.len() + 2 * old(self).batch_size <= i64::MAX as int,
                self.wf(),
                store.wf(),
                self.category == old(self).category,
                self.handler == old(self).handler,
                self.batch_size == old(self).batch_size,
                self.position_store@.category == ps0.category,
                self.position_store@.identifier == ps0.identifier,
                self.position_store@.interval == ps0.interval,
                ps0 == old(self).position_store@,
                s0 == (StepState {
                    log: base_log,
                    cursor: old(self).cursor,
                    ps_position: ps0.position,
                    dispatched: Seq::<i64>::empty(),
                    failures: 0,
                }),
                store@ == run_batch(s0, msgs.take(j as int), ps0, now).log,
                self.cursor == run_batch(s0, msgs.take(j as int), ps0, now).cursor,
                self.position_store@.position == run_batch(s0, msgs.take(j as int), ps0, now).ps_position,
                processed == run_batch(s0, msgs.take(j as int), ps0, now).dispatched.len(),
                failed == run_batch(s0, msgs.take(j as int), ps0, now).failures,
                processed + failed == j,
                store@.len() <= base_log.len() + 2 * j,
            decreases batch@.len() - j,
        {
            let ghost s_before = run_batch(s0, msgs.take(j as int), ps0, now);
            let m = &batch[j];
            proof {
                assert(m@ == msgs[j as int]);
                assert(msgs.take(j + 1).drop_last() =~= msgs.take(j as int));
                assert(msgs.take(j + 1).last() == msgs[j as int]);
            }
            let g: i64 = match m.global_position {
                Some(g) => g,
                None => 0,
            };
            proof {
                assert(m@.global_position is Some && g == m@.global_position->Some_0 && g >= from);
            }
            let res = self.handler.handle_at(store, m, now);
            match res {
                Ok(_) => {
                    self.position_store.update_position(store, g, now);
                    processed = processed + 1;
                },
                Err(_) => {
                    failed = failed + 1;
                },
            }
            self.cursor = g;
            j = j + 1;
            proof {
                let s_after = run_batch(s0, msgs.take(j as int), ps0, now);
                assert(s_after == dispatch_one(s_before, msgs[j - 1], ps0, now));
            }
        }
        proof {
            assert(msgs.take(msgs.len() as int) =~= msgs);
        }
        PollOutcome { processed, failed, reached_tail: batch.len() < self.batch_size }
    }

    /// One poll at the injected clock's current time: [`poll_step`] at
    /// the moment of the call.
    pub fn poll(&mut self, store: &mut MessageStore) -> (r: PollOutcome)
        requires
            old(self).wf(),
            old(store).wf(),
            old(self).cursor < i64::MAX as int,
            old(store)@.len() + 2 * old(self).batch_size <= i64::MAX as int,
        ensures
            final(self).wf(),
            final(store).wf(),
            r.reached_tail == (take_at_most(
                category_msgs_from(old(store)@, old(self).category@, old(self).cursor + 1),
                old(self).batch_size as int,
            ).len() < old(self).batch_size),
            exists|t: i64|
                ({
                    let s1 = #[trigger] poll_model(
                        old(store)@,
                        old(self).category@,
                        old(self).cursor,
                        old(self).position_store@,
                        old(self).batch_size as int,
                        t,
                    );
                    &&& final(store)@ == s1.log
                    &&& final(self).cursor == s1.cursor
                    &&& final(self).position_store@.position == s1.ps_position
                    &&& r.processed == s1.dispatched.len()
                    &&& r.failed == s1.failures
                }),
    {
        let clock = self.handler.clock();
        let now = clock.now();
        let r = self.poll_step(store, now);
        proof {
            let s1 = poll_model(
                old(store)@,
                old(self).category@,
                old(self).cursor,
                old(self).position_store@,
                old(self).batch_size as int,
                now,
            );
            assert(store@ == s1.log && self.cursor == s1.cursor && self.position_store@.position
                == s1.ps_position && r.processed == s1.dispatched.len() && r.failed == s1.failures);
        }
        r
    }

    /// The last position fully processed, as the position store counts
    /// it.
    pub fn current_position(&self) -> (r: i64)
        ensures
            r == self.position_store@.position,
    {
        self.position_store.position()
    }
}

// ------------------------------------------------------------------
// Dispatch ordering
// ------------------------------------------------------------------

/// Ordering: whatever has been interleaved into the category's streams,
/// one poll step dispatches, front to back, exactly the batch the
/// category read returned — and that batch's global positions are
/// strictly ascending and all lie beyond the consumer's cursor. Since the
/// cursor ends on the batch's last position, positions keep ascending
/// across consecutive steps as well.
/// A checkpoint never splits from the message it covers: along a batch
/// whose global positions ascend strictly beyond the starting cursor, the
/// position store's counter trails the read cursor — it only ever takes
/// the position of a message already dispatched, so a checkpoint for a
/// position is persisted only after every message up to it has been
/// dispatched.
pub proof fn lemma_checkpoint_behind_dispatch(
    s0: StepState,
    msgs: Seq<MessageView>,
    ps: PositionStoreView,
    now: i64,
)
    requires
        s0.ps_position <= s0.cursor,
        forall|k: int| 0 <= k < msgs.len() ==> (#[trigger] msgs[k]).global_position->Some_0 > s0.cursor,
        forall|a: int, b: int|
            0 <= a < b < msgs.len() ==> (#[trigger] msgs[a]).global_position->Some_0 < (
            #[trigger] msgs[b]).global_position->Some_0,
    ensures
        ({
            let s1 = run_batch(s0, msgs, ps, now);
            &&& s1.ps_position <= s1.cursor
            &&& s1.cursor >= s0.cursor
            &&& s1.cursor == s0.cursor || exists|j: int|
                0 <= j < msgs.len() && (#[trigger] msgs[j]).global_position->Some_0 == s1.cursor
        }),
    decreases msgs.len(),
{
    if msgs.len() != 0 {
        let prefix = msgs.drop_last();
        assert forall|k: int| 0 <= k < prefix.len() implies (
        #[trigger] prefix[k]).global_position->Some_0 > s0.cursor by {
            assert(prefix[k] == msgs[k]);
        }
        assert forall|a: int, b: int| 0 <= a < b < prefix.len() implies (
        #[trigger] prefix[a]).global_position->Some_0 < (
        #[trigger] prefix[b]).global_position->Some_0 by {
            assert(prefix[a] == msgs[a] && prefix[b] == msgs[b]);
        }
        lemma_checkpoint_behind_dispatch(s0, prefix, ps, now);
        let sp = run_batch(s0, prefix, ps, now);
        let m = msgs.last();
        let g = m.global_position->Some_0;
        assert(m == msgs[msgs.len() - 1]);
        // The last message lies beyond wherever the cursor stands now.
        assert(g > sp.cursor) by {
            if sp.cursor != s0.cursor {
                let j = choose|j: int|
                    0 <= j < prefix.len() && (#[trigger] prefix[j]).global_position->Some_0
                        == sp.cursor;
                assert(msgs[j].global_position->Some_0 < g);
            }
        }
        assert(run_batch(s0, msgs, ps, now).cursor == g);
    }
}

/// Running a batch whose global positions ascend strictly dispatches, on
/// top of whatever was dispatched before, a trail of positions that also
/// ascends strictly, each of them the global position of a batch message.
pub proof fn lemma_run_batch_dispatched(
    s0: StepState,
    msgs: Seq<MessageView>,
    ps: PositionStoreView,
    now: i64,
)
    requires
        forall|a: int, b: int|
            0 <= a < b < msgs.len() ==> (#[trigger] msgs[a]).global_position->Some_0 < (
            #[trigger] msgs[b]).global_position->Some_0,
    ensures
        ({
            let s1 = run_batch(s0, msgs, ps, now);
            &&& s0.dispatched.len() <= s1.dispatched.len()
            &&& forall|k: int|
                0 <= k < s0.dispatched.len() ==> #[trigger] s1.dispatched[k] == s0.dispatched[k]
            &&& forall|k: int|
                s0.dispatched.len() <= k < s1.dispatched.len() ==> exists|j: int|
                    0 <= j < msgs.len() && (#[trigger] msgs[j]).global_position->Some_0
                        == #[trigger] s1.dispatched[k]
            &&& forall|a: int, b: int|
                s0.dispatched.len() <= a < b < s1.dispatched.len() ==> #[trigger] s1.dispatched[a]
                    < #[trigger] s1.dispatched[b]
        }),
    decreases msgs.len(),
{
    if msgs.len() != 0 {
        let prefix = msgs.drop_last();
        assert forall|a: int, b: int| 0 <= a < b < prefix.len() implies (
        #[trigger] prefix[a]).global_position->Some_0 < (
        #[trigger] prefix[b]).global_position->Some_0 by {
            assert(prefix[a] == msgs[a] && prefix[b] == msgs[b]);
        }
        lemma_run_batch_dispatched(s0, prefix, ps, now);
        let sp = run_batch(s0, prefix, ps, now);
        let s1 = run_batch(s0, msgs, ps, now);
        let m = msgs.last();
        let g = m.global_position->Some_0;
        assert(m == msgs[msgs.len() - 1]);
        if handle_model(sp.log, m, now).1 is Ok {
            assert(s1.dispatched == sp.dispatched.push(g));
            assert forall|k: int|
                s0.dispatched.len() <= k < s1.dispatched.len() implies exists|j: int|
                0 <= j < msgs.len() && (#[trigger] msgs[j]).global_position->Some_0
                    == #[trigger] s1.dispatched[k] by {
                if k < sp.dispatched.len() {
                    let j = choose|j: int|
                        0 <= j < prefix.len() && (#[trigger] prefix[j]).global_position->Some_0
                            == sp.dispatched[k];
                    assert(msgs[j].global_position->Some_0 == s1.dispatched[k]);
                } else {
                    assert(msgs[msgs.len() - 1].global_position->Some_0 == s1.dispatched[k]);
                }
            }
            assert forall|a: int, b: int|
                s0.dispatched.len() <= a < b < s1.dispatched.len() implies #[trigger] s1.dispatched[a]
                < #[trigger] s1.dispatched[b] by {
                if b == s1.dispatched.len() - 1 {
                    let j = choose|j: int|
                        0 <= j < prefix.len() && (#[trigger] prefix[j]).global_position->Some_0
                            == sp.dispatched[a];
                    assert(msgs[j].global_position->Some_0 < g);
                }
            }
        }
    }
}

pub proof fn lemma_dispatch_ordered(log: Seq<MessageView>, cat: Seq<char>, cursor: i64, batch: int)
    requires
        wf_log(log),
        cursor < i64::MAX as int,
    ensures
        ({
            let msgs = take_at_most(category_msgs_from(log, cat, cursor + 1), batch);
            &&& forall|a: int, b: int|
                0 <= a < b < msgs.len() ==> (#[trigger] msgs[a]).global_position->Some_0 < (
                #[trigger] msgs[b]).global_position->Some_0
            &&& forall|k: int| 0 <= k < msgs.len() ==> (#[trigger] msgs[k]).global_position->Some_0 > cursor
        }),
{
    lemma_category_read_sorted(log, cat, cursor + 1);
    let cm = category_msgs_from(log, cat, cursor + 1);
    let msgs = take_at_most(cm, batch);
    assert forall|k: int| 0 <= k < msgs.len() implies msgs[k] == cm[k] by {}
}

} // verus!
