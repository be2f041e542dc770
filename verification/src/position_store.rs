//! The position store: tracks the last fully processed global position
//! for one consumer identity and checkpoints it durably, batched rather
//! than on every message. A missed checkpoint only widens the replay
//! window after a crash; it never loses progress, because every persist
//! stores the current counter, not a delta.

use vstd::prelude::*;

use crate::codec::{dec_recorded_payload, recorded_payload, DecodeError};
use crate::events::Recorded;
use crate::message_store::{
    appended_msg, stream_msgs, write_model, MessageStore, WriteError,
};
use crate::text::{append_str, append_text, copy_text, text};

verus! {

/// The reserved stream a consumer identity checkpoints into:
/// `<category>:position`, or `<category>:position-<identifier>` for a
/// partitioned consumer.
pub open spec fn position_stream(cat: Seq<char>, id: Option<Seq<char>>) -> Seq<char> {
    match id {
        None => cat + ":position"@,
        Some(i) => cat + ":position-"@ + i,
    }
}

/// Mathematical view of a [`PositionStore`].
pub ghost struct PositionStoreView {
    pub category: Seq<char>,
    pub identifier: Option<Seq<char>>,
    pub position: i64,
    pub interval: i64,
}

/// Does advancing to `pos` persist a checkpoint? The batching predicate
/// of the source policy: every position divisible by the interval.
pub open spec fn should_persist(pos: i64, interval: i64) -> bool {
    pos % interval == 0
}

/// Tracks and checkpoints one consumer identity's position.
pub struct PositionStore {
    pub category: Vec<char>,
    pub identifier: Option<Vec<char>>,
    /// Last fully processed global position; advanced on every handled
    /// message, persisted only when the batching predicate fires.
    pub position: i64,
    /// The batching interval (the source policy uses five); configurable
    /// rather than hard-coded.
    pub interval: i64,
}

impl View for PositionStore {
    type V = PositionStoreView;

    open spec fn view(&self) -> PositionStoreView {
        PositionStoreView {
            category: self.category@,
            identifier: match self.identifier {
                Some(ref i) => Some(i@),
                None => None,
            },
            position: self.position,
            interval: self.interval,
        }
    }
}

impl PositionStore {
    /// A positive batching interval.
    pub open spec fn wf(&self) -> bool {
        self@.interval >= 1
    }

    /// A fresh store for one consumer identity, starting at position
    /// zero (replay from the beginning until a checkpoint says better).
    pub fn new(category: Vec<char>, identifier: Option<Vec<char>>, interval: i64) -> (s:
        PositionStore)
        requires
            interval >= 1,
        ensures
            s@.category == category@,
            s@.identifier == (match identifier {
                Some(ref i) => Some::<Seq<char>>(i@),
                None => None::<Seq<char>>,
            }),
            s@.position == 0,
            s@.interval == interval,
            s.wf(),
    {
        PositionStore { category, identifier, position: 0, interval }
    }

    /// The name of this consumer's checkpoint stream.
    pub fn position_stream_name(&self) -> (r: Vec<char>)
        ensures
            r@ == position_stream(self@.category, self@.identifier),
    {
        let mut r: Vec<char> = Vec::new();
        append_text(&mut r, &self.category);
        match &self.identifier {
            None => {
                append_str(&mut r, ":position");
                proof {
                    assert(r@ =~= position_stream(self@.category, self@.identifier));
                }
            },
            Some(id) => {
                append_str(&mut r, ":position-");
                append_text(&mut r, id);
                proof {
                    assert(r@ =~= position_stream(self@.category, self@.identifier));
                }
            },
        }
        r
    }

    /// Recover the last checkpoint: the most recent `Recorded` event in
    /// the checkpoint stream is authoritative; an empty stream means
    /// "replay from the beginning", position zero. Fails only on a
    /// checkpoint whose payload cannot be decoded.
    pub fn get(&self, store: &MessageStore) -> (r: Result<i64, DecodeError>)
        ensures
            ({
                let sm = stream_msgs(store@, position_stream(self@.category, self@.identifier));
                if sm.len() == 0 {
                    r == Ok::<i64, DecodeError>(0)
                } else {
                    match dec_recorded_payload(sm.last().data) {
                        Some((p, t)) => r == Ok::<i64, DecodeError>(p),
                        None => r is Err,
                    }
                }
            }),
    {
        let stream = self.position_stream_name();
        match store.get_last_stream_message(&stream) {
            None => Ok(0),
            Some(m) => match Recorded::from_message(m) {
                Ok(ev) => Ok(ev.recorded_position),
                Err(e) => Err(e),
            },
        }
    }

    /// The in-memory position, readable by a position-reporting query.
    pub fn position(&self) -> (r: i64)
        ensures
            r == self@.position,
    {
        self.position
    }

    /// Record that the message at `new_position` has been fully handled:
    /// advance the in-memory counter unconditionally, and persist a
    /// checkpoint exactly when the batching predicate fires.
    pub fn update_position(
        &mut self,
        store: &mut MessageStore,
        new_position: i64,
        now: i64,
    )
        requires
            old(self).wf(),
            old(store).wf(),
            old(store)@.len() < i64::MAX as int,
            new_position >= 0,
        ensures
            final(self).wf(),
            final(store).wf(),
            final(self)@ == (PositionStoreView { position: new_position, ..old(self)@ }),
            final(store)@ == checkpoint_log(old(store)@, old(self)@, new_position, now),
    {
        self.position = new_position;
        if new_position % self.interval == 0 {
            self.save_position(store, new_position, now);
        }
    }

    /// The batching decision alone: advance the in-memory counter and say
    /// whether a checkpoint is due, for a caller whose log lives behind a
    /// transport and that therefore persists the checkpoint itself.
    pub fn advance(&mut self, new_position: i64) -> (persist: bool)
        requires
            old(self).wf(),
            new_position >= 0,
        ensures
            final(self).wf(),
            final(self)@ == (PositionStoreView { position: new_position, ..old(self)@ }),
            persist == should_persist(new_position, old(self)@.interval),
    {
        self.position = new_position;
        new_position % self.interval == 0
    }

    /// Persist a fresh `Recorded` checkpoint for `position` to the
    /// checkpoint stream, with no expected-version constraint: checkpoints
    /// are monotone facts, not a contested resource.
    pub fn save_position(&self, store: &mut MessageStore, position: i64, now: i64)
        requires
            old(store).wf(),
            old(store)@.len() < i64::MAX as int,
        ensures
            final(store).wf(),
            final(store)@ == old(store)@.push(
                appended_msg(
                    old(store)@,
                    position_stream(self@.category, self@.identifier),
                    "Recorded"@,
                    recorded_payload(position, Some(now)),
                    None,
                    now,
                ),
            ),
    {
        let stream = self.position_stream_name();
        let event = Recorded::new(position, Some(now));
        let data = event.to_payload();
        let typ = text(event.event_name());
        let r = store.write_message(&stream, &typ, &data, None, None, now);
        proof {
            // With no expected version the append is always accepted.
            assert(r is Ok);
        }
    }
}

/// What `update_position` does to the log: a checkpoint append when the
/// batching predicate fires, nothing otherwise.
pub open spec fn checkpoint_log(
    log: Seq<crate::message::MessageView>,
    ps: PositionStoreView,
    new_position: i64,
    now: i64,
) -> Seq<crate::message::MessageView> {
    if should_persist(new_position, ps.interval) {
        log.push(
            appended_msg(
                log,
                position_stream(ps.category, ps.identifier),
                "Recorded"@,
                recorded_payload(new_position, Some(now)),
                None,
                now,
            ),
        )
    } else {
        log
    }
}

/// A persisted checkpoint is exactly what recovery reads back: once the
/// batching predicate fires for `p`, the checkpoint stream's most recent
/// event decodes to `p`, so a restart resumes right after it.
pub proof fn lemma_checkpoint_recovered(
    log: Seq<crate::message::MessageView>,
    ps: PositionStoreView,
    p: i64,
    now: i64,
)
    requires
        should_persist(p, ps.interval),
    ensures
        ({
            let sm = stream_msgs(
                checkpoint_log(log, ps, p, now),
                position_stream(ps.category, ps.identifier),
            );
            sm.len() > 0 && dec_recorded_payload(sm.last().data) == Some((p, Some(now)))
        }),
{
    let stream = position_stream(ps.category, ps.identifier);
    let m = appended_msg(log, stream, "Recorded"@, recorded_payload(p, Some(now)), None, now);
    crate::message_store::lemma_stream_msgs_push(log, stream, m);
    crate::codec::lemma_recorded_payload_round_trip(p, Some(now));
}

/// The log after a whole run of `update_position` calls, first to last.
pub open spec fn advances_log(
    log: Seq<crate::message::MessageView>,
    ps: PositionStoreView,
    calls: Seq<i64>,
    now: i64,
) -> Seq<crate::message::MessageView>
    decreases calls.len(),
{
    if calls.len() == 0 {
        log
    } else {
        checkpoint_log(advances_log(log, ps, calls.drop_last(), now), ps, calls.last(), now)
    }
}

/// The positions `1..=h`, in dispatch order.
pub open spec fn consecutive(h: int) -> Seq<i64> {
    Seq::new(h as nat, |k: int| (k + 1) as i64)
}

/// Checkpoint recovery in general: after advancing through the positions
/// `1..=h` in order (with every triggered persist reaching the log), the
/// checkpoint stream's most recent event decodes to the largest multiple
/// of the batching interval at or below `h` — so a restart resumes from
/// there and re-delivers fewer than one interval's worth of messages.
/// Below one interval nothing was persisted and recovery starts at zero.
pub proof fn lemma_checkpoint_recovery(
    log: Seq<crate::message::MessageView>,
    ps: PositionStoreView,
    h: int,
    now: i64,
)
    requires
        ps.interval >= 1,
        0 <= h <= i64::MAX as int,
    ensures
        ({
            let stream = position_stream(ps.category, ps.identifier);
            let sm0 = stream_msgs(log, stream);
            let sm = stream_msgs(advances_log(log, ps, consecutive(h), now), stream);
            if h >= ps.interval {
                sm.len() > 0 && dec_recorded_payload(sm.last().data) == Some(
                ((((h / (ps.interval as int)) * (ps.interval as int)) as i64), Some(now)))
            } else {
                sm == sm0
            }
        }),
    decreases h,
{
    let i = ps.interval as int;
    let stream = position_stream(ps.category, ps.identifier);
    if h == 0 {
        assert(consecutive(0) =~= Seq::<i64>::empty());
    } else {
        lemma_checkpoint_recovery(log, ps, h - 1, now);
        assert(consecutive(h).drop_last() =~= consecutive(h - 1));
        assert(consecutive(h).last() == (h as i64));
        let prev = advances_log(log, ps, consecutive(h - 1), now);
        vstd::arithmetic::div_mod::lemma_fundamental_div_mod(h, i);
        let q = h / i;
        let r = h % i;
        vstd::arithmetic::mul::lemma_mul_is_commutative(i, q);
        assert(0 <= r < i) by {
            vstd::arithmetic::div_mod::lemma_mod_bound(h, i);
        }
        if r == 0 {
            // This position persists: the stream ends on its checkpoint.
            assert(should_persist(h as i64, ps.interval));
            let m = appended_msg(
                prev,
                stream,
                "Recorded"@,
                recorded_payload(h as i64, Some(now)),
                None,
                now,
            );
            crate::message_store::lemma_stream_msgs_push(prev, stream, m);
            crate::codec::lemma_recorded_payload_round_trip(h as i64, Some(now));
            assert(q * i == h);
            assert(q >= 1) by {
                if q <= 0 {
                    vstd::arithmetic::mul::lemma_mul_inequality(q, 0, i);
                }
            }
            assert(h >= i) by {
                vstd::arithmetic::mul::lemma_mul_inequality(1, q, i);
                vstd::arithmetic::mul::lemma_mul_is_commutative(i, q);
            }
        } else {
            // No persist here: the checkpoint stream is as after `h - 1`,
            // and the largest multiple below `h` is the one below `h - 1`.
            assert(!should_persist(h as i64, ps.interval));
            vstd::arithmetic::div_mod::lemma_fundamental_div_mod_converse(h - 1, i, q, r - 1);
            assert((h - 1) / i == q);
            if h >= i {
                assert(h - 1 >= i) by {
                    if h - 1 < i {
                        // Then `h` would be the interval itself, whose
                        // remainder is zero.
                        assert(h == i);
                        vstd::arithmetic::div_mod::lemma_fundamental_div_mod_converse(h, i, 1, 0);
                    }
                }
            }
        }
    }
}

// ------------------------------------------------------------------
// Checkpoint monotonicity
// ------------------------------------------------------------------

/// The checkpoint counter and what has been persisted, at the model
/// level.
pub ghost struct CheckpointModel {
    pub position: i64,
    pub persisted: Seq<i64>,
}

/// One `advance` call: the counter moves unconditionally, the persisted
/// trail grows exactly when the batching predicate fires.
pub open spec fn advance_model(m: CheckpointModel, p: i64, interval: i64) -> CheckpointModel {
    CheckpointModel {
        position: p,
        persisted: if should_persist(p, interval) {
            m.persisted.push(p)
        } else {
            m.persisted
        },
    }
}

/// A whole sequence of `advance` calls, first to last.
pub open spec fn advances_model(m: CheckpointModel, calls: Seq<i64>, interval: i64) -> CheckpointModel
    decreases calls.len(),
{
    if calls.len() == 0 {
        m
    } else {
        advance_model(advances_model(m, calls.drop_last(), interval), calls.last(), interval)
    }
}

/// Checkpoint monotonicity: for any sequence of `advance` calls in
/// non-decreasing order (the order the consumer loop dispatches in),
/// every persisted checkpoint is a multiple of the batching interval, is
/// a position that was actually handled, and the persisted trail is
/// non-decreasing — so the position recovered after a restart is at most
/// the highest position dispatched and a multiple of the interval below
/// it.
pub proof fn lemma_checkpoint_monotonicity(calls: Seq<i64>, interval: i64)
    requires
        interval >= 1,
        forall|a: int, b: int| 0 <= a <= b < calls.len() ==> calls[a] <= calls[b],
    ensures
        ({
            let m0 = CheckpointModel { position: 0, persisted: Seq::<i64>::empty() };
            let m = advances_model(m0, calls, interval);
            &&& forall|k: int|
                0 <= k < m.persisted.len() ==> (#[trigger] m.persisted[k]) % interval == 0
            &&& forall|k: int| 0 <= k < m.persisted.len() ==> calls.contains(#[trigger] m.persisted[k])
            &&& forall|a: int, b: int|
                0 <= a <= b < m.persisted.len() ==> m.persisted[a] <= m.persisted[b]
            &&& (m.persisted.len() > 0 && calls.len() > 0 ==> m.persisted.last() <= calls.last())
        }),
    decreases calls.len(),
{
    let m0 = CheckpointModel { position: 0, persisted: Seq::<i64>::empty() };
    if calls.len() != 0 {
        let prefix = calls.drop_last();
        lemma_checkpoint_monotonicity(prefix, interval);
        let mp = advances_model(m0, prefix, interval);
        let m = advances_model(m0, calls, interval);
        assert forall|k: int| 0 <= k < mp.persisted.len() implies calls.contains(
            #[trigger] mp.persisted[k],
        ) && mp.persisted[k] <= calls.last() by {
            assert(prefix.contains(mp.persisted[k]));
            let j = choose|j: int| 0 <= j < prefix.len() && prefix[j] == mp.persisted[k];
            assert(calls[j] == mp.persisted[k]);
            assert(calls[j] <= calls[calls.len() - 1]);
        }
        if should_persist(calls.last(), interval) {
            assert(m.persisted == mp.persisted.push(calls.last()));
            assert(calls.contains(calls.last())) by {
                assert(calls[calls.len() - 1] == calls.last());
            }
        }
    }
}

} // verus!
