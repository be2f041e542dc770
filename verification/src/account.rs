//! The account aggregate: an in-memory, rebuildable fold of one entity's
//! stream. It is never persisted; it is recomputed on every command from
//! the stream, so it is always exactly derivable from its source events.

use vstd::prelude::*;

use crate::codec::{dec_opened_payload, DecodeError};
use crate::events::Opened;
use crate::message::{kind_of, kind_of_type, Message, MessageKind, MessageView};
use crate::message_store::{msg_views, skip_at_most, stream_msgs, take_at_most, MessageStore};
use crate::text::{append_str, append_text, copy_text};

verus! {

/// Mathematical view of an [`Account`].
pub ghost struct AccountView {
    pub id: Seq<char>,
    pub opened_time: Option<i64>,
    pub balance: Option<i64>,
    pub status: Option<Seq<char>>,
}

/// One entity's projected state: only what handlers need to decide
/// whether to accept a command.
pub struct Account {
    pub id: Vec<char>,
    pub opened_time: Option<i64>,
    pub balance: Option<i64>,
    pub status: Option<Vec<char>>,
}

impl View for Account {
    type V = AccountView;

    open spec fn view(&self) -> AccountView {
        AccountView {
            id: self.id@,
            opened_time: self.opened_time,
            balance: self.balance,
            status: match self.status {
                Some(s) => Some(s@),
                None => None,
            },
        }
    }
}

/// A brand-new entity's state.
pub open spec fn init_account(id: Seq<char>) -> AccountView {
    AccountView { id: id, opened_time: None, balance: None, status: None }
}

/// The account's balance, zero while none is known.
pub open spec fn account_balance(a: AccountView) -> int {
    match a.balance {
        Some(b) => b as int,
        None => 0,
    }
}

impl Account {
    pub fn new(id: &Vec<char>) -> (a: Account)
        ensures
            a@ == init_account(id@),
    {
        Account { id: copy_text(id), opened_time: None, balance: None, status: None }
    }

    /// Has this account been opened?
    pub fn opened(&self) -> (r: bool)
        ensures
            r == (self@.opened_time is Some),
    {
        self.opened_time.is_some()
    }

    /// Can this account cover a withdrawal of `amount`?
    pub fn sufficient_funds(&self, amount: i64) -> (r: bool)
        ensures
            r == (account_balance(self@) >= amount),
    {
        let balance: i64 = match self.balance {
            Some(b) => b,
            None => 0,
        };
        balance >= amount
    }

    /// Withdraw `amount` if the balance covers it; say whether it did.
    pub fn withdraw(&mut self, amount: i64) -> (ok: bool)
        requires
            amount >= 0,
        ensures
            ok == (account_balance(old(self)@) >= amount),
            ok ==> final(self)@ == (AccountView {
                balance: Some((account_balance(old(self)@) - amount) as i64),
                ..old(self)@
            }),
            !ok ==> final(self)@ == old(self)@,
    {
        if self.sufficient_funds(amount) {
            let balance: i64 = match self.balance {
                Some(b) => b,
                None => 0,
            };
            self.balance = Some(balance - amount);
            true
        } else {
            false
        }
    }
}

// ------------------------------------------------------------------
// Hydration
// ------------------------------------------------------------------

/// The stream an entity's own events live in.
pub open spec fn account_stream(id: Seq<char>) -> Seq<char> {
    "account-"@ + id
}

/// Build an entity's stream name.
pub fn account_stream_name(id: &Vec<char>) -> (r: Vec<char>)
    ensures
        r@ == account_stream(id@),
{
    let mut r: Vec<char> = Vec::new();
    append_str(&mut r, "account-");
    append_text(&mut r, id);
    proof {
        assert(r@ =~= account_stream(id@));
    }
    r
}

/// Fold one stream message into the account: a decodable `Opened` event
/// stamps the opened time; every other message type is skipped, keeping
/// replay forward compatible with future event types.
pub open spec fn apply_message(a: AccountView, m: MessageView) -> AccountView {
    if kind_of(m.message_type) is Opened {
        match dec_opened_payload(m.data) {
            Some((id, t)) => AccountView { id: a.id, opened_time: t, balance: None, status: None },
            None => a,
        }
    } else {
        a
    }
}

/// The account state after folding a whole stream, front to back.
pub open spec fn fold_account(id: Seq<char>, msgs: Seq<MessageView>) -> AccountView
    decreases msgs.len(),
{
    if msgs.len() == 0 {
        init_account(id)
    } else {
        apply_message(fold_account(id, msgs.drop_last()), msgs.last())
    }
}

/// Every `Opened`-typed message of the stream has a decodable payload.
pub open spec fn stream_decodable(msgs: Seq<MessageView>) -> bool {
    forall|k: int|
        0 <= k < msgs.len() ==> (kind_of((#[trigger] msgs[k]).message_type) is Opened
            ==> dec_opened_payload(msgs[k].data) is Some)
}

/// The stream's version after folding: the stream position of the last
/// message read, `None` for a brand-new entity.
pub open spec fn stream_fold_version(msgs: Seq<MessageView>) -> Option<i64> {
    if msgs.len() == 0 {
        None
    } else {
        msgs.last().position
    }
}

/// Rebuilds account state by replaying entity streams.
pub struct AccountStore {
    /// How many messages each read asks for; reads loop until a short
    /// batch signals the stream's end.
    pub batch_size: usize,
}

impl AccountStore {
    /// A store reading with the default batch size.
    pub fn new() -> (s: AccountStore)
        ensures
            s.batch_size == 1000,
    {
        AccountStore { batch_size: 1000 }
    }

    /// Replay the entity's full stream from position zero in batches,
    /// folding each recognized event into the account.
    ///
    /// Returns the folded state and the stream's current version; fails
    /// exactly when some `Opened` event in the stream cannot be decoded.
    pub fn fetch(&self, store: &MessageStore, account_id: &Vec<char>) -> (r: Result<
        (Account, Option<i64>),
        DecodeError,
    >)
        requires
            self.batch_size >= 1,
            store.wf(),
        ensures
            ({
                let sm = stream_msgs(store@, account_stream(account_id@));
                if stream_decodable(sm) {
                    r matches Ok((a, v)) && a@ == fold_account(account_id@, sm) && v
                        == stream_fold_version(sm)
                } else {
                    r is Err
                }
            }),
    {
        let stream = account_stream_name(account_id);
        let ghost sm = stream_msgs(store@, stream@);
        let mut account = Account::new(account_id);
        let mut version: Option<i64> = None;
        let mut pos: usize = 0;
        let mut done = false;
        let total = store.len();
        proof {
            assert(sm.take(0) =~= Seq::<MessageView>::empty());
            crate::message_store::lemma_stream_msgs_len(store@, stream@);
        }
        while !done
            invariant
                self.batch_size >= 1,
                stream@ == account_stream(account_id@),
                sm == stream_msgs(store@, stream@),
                sm.len() <= i64::MAX as int,
                sm.len() <= usize::MAX as int,
                pos <= sm.len(),
                stream_decodable(sm.take(pos as int)),
                account@ == fold_account(account_id@, sm.take(pos as int)),
                version == stream_fold_version(sm.take(pos as int)),
                done ==> pos == sm.len(),
            decreases sm.len() - pos, (if done { 0int } else { 1int }),
        {
            let batch = store.get_stream_messages(&stream, pos as i64, self.batch_size);
            proof {
                let skipped = skip_at_most(sm, pos as int);
                assert(msg_views(batch@).len() == take_at_most(
                    skipped,
                    self.batch_size as int,
                ).len());
                assert(batch@.len() + pos <= sm.len());
                assert forall|k: int| 0 <= k < batch@.len() implies (#[trigger] batch@[k])@ == sm[pos
                    + k] by {
                    assert(msg_views(batch@)[k] == batch@[k]@);
                    assert(take_at_most(skipped, self.batch_size as int)[k] == skipped[k]);
                }
            }
            let mut j: usize = 0;
            while j < batch.len()
                invariant
                    j <= batch@.len(),
                    sm.len() <= i64::MAX as int,
                    sm.len() <= usize::MAX as int,
                    batch@.len() + pos <= sm.len(),
                    forall|k: int| 0 <= k < batch@.len() ==> (#[trigger] batch@[k])@ == sm[pos + k],
                    stream@ == account_stream(account_id@),
                    sm == stream_msgs(store@, stream@),
                    stream_decodable(sm.take(pos + j)),
                    account@ == fold_account(account_id@, sm.take(pos + j)),
                    version == stream_fold_version(sm.take(pos + j)),
                decreases batch@.len() - j,
            {
                let m = &batch[j];
                let ghost n = pos + j;
                let ghost mv = sm[n as int];
                proof {
                    assert(m@ == mv);
                    assert(sm.take(n + 1).drop_last() =~= sm.take(n as int));
                    assert(sm.take(n + 1).last() == mv);
                }
                let mpos = m.position;
                let kind = kind_of_type(&m.message_type);
                if kind == MessageKind::Opened {
                    match Opened::from_message(m.duplicate()) {
                        Ok(ev) => {
                            account = self.apply_opened(account, &ev);
                        },
                        Err(e) => {
                            proof {
                                // This very message witnesses that the
                                // stream is not decodable.
                                assert(kind_of(mv.message_type) is Opened);
                                assert(dec_opened_payload(mv.data) is None);
                                assert(!stream_decodable(sm));
                            }
                            return Err(e);
                        },
                    }
                }
                version = mpos;
                j = j + 1;
                proof {
                    assert(stream_decodable(sm.take(pos + j))) by {
                        assert forall|k: int|
                            0 <= k < pos + j && kind_of(
                                (#[trigger] sm.take(pos + j)[k]).message_type,
                            ) is Opened implies dec_opened_payload(
                            sm.take(pos + j)[k].data,
                        ) is Some by {
                            if k < pos + j - 1 {
                                assert(sm.take(pos + j)[k] == sm.take((pos + j - 1) as int)[k]);
                            }
                        }
                    }
                }
            }
            pos = pos + batch.len();
            if batch.len() < self.batch_size {
                proof {
                    // A short batch signals the stream's end.
                    let skipped = skip_at_most(sm, (pos - batch@.len()) as int);
                    assert(batch@.len() == skipped.len());
                }
                done = true;
            }
        }
        proof {
            assert(sm.take(sm.len() as int) =~= sm);
        }
        Ok((account, version))
    }

    /// Fold one decoded `Opened` event into the account.
    pub fn apply_opened(&self, account: Account, opened: &Opened) -> (r: Account)
        ensures
            r@ == (AccountView {
                id: account@.id,
                opened_time: opened.processed_time,
                balance: None,
                status: None,
            }),
    {
        Account {
            id: account.id,
            opened_time: opened.processed_time,
            balance: None,
            status: None,
        }
    }
}

/// Fold a batch of stream messages into hydration state carried so far:
/// the account after applying each recognized event and the position of
/// the last message seen. `None` exactly when some `Opened` event in the
/// batch cannot be decoded.
pub open spec fn fold_batch_model(
    a: AccountView,
    ver: Option<i64>,
    msgs: Seq<MessageView>,
) -> Option<(AccountView, Option<i64>)>
    decreases msgs.len(),
{
    if msgs.len() == 0 {
        Some((a, ver))
    } else {
        match fold_batch_model(a, ver, msgs.drop_last()) {
            None => None,
            Some((a2, v2)) => {
                let m = msgs.last();
                if kind_of(m.message_type) is Opened && dec_opened_payload(m.data) is None {
                    None
                } else {
                    Some((apply_message(a2, m), m.position))
                }
            },
        }
    }
}

impl AccountStore {
    /// Fold one read batch into hydration state, for a caller that reads
    /// the entity stream over a transport and hydrates batch by batch.
    /// Exactly [`fold_batch_model`].
    pub fn fold_batch(&self, account: Account, version: Option<i64>, batch: &Vec<Message>) -> (r:
        Result<(Account, Option<i64>), DecodeError>)
        ensures
            match fold_batch_model(account@, version, msg_views(batch@)) {
                Some((a, v)) => r matches Ok(p) && p.0@ == a && p.1 == v,
                None => r is Err,
            },
    {
        let ghost msgs = msg_views(batch@);
        let mut acc = account;
        let mut ver = version;
        let mut j: usize = 0;
        while j < batch.len()
            invariant
                j <= batch@.len(),
                msgs == msg_views(batch@),
                fold_batch_model(account@, version, msgs.take(j as int)) == Some((acc@, ver)),
            decreases batch@.len() - j,
        {
            let m = &batch[j];
            proof {
                assert(msgs.take(j + 1).drop_last() =~= msgs.take(j as int));
                assert(msgs.take(j + 1).last() == msgs[j as int]);
                assert(msgs[j as int] == batch@[j as int]@);
            }
            let mpos = m.position;
            let kind = kind_of_type(&m.message_type);
            if kind == MessageKind::Opened {
                match Opened::from_message(m.duplicate()) {
                    Ok(ev) => {
                        acc = self.apply_opened(acc, &ev);
                    },
                    Err(e) => {
                        proof {
                            assert(fold_batch_model(account@, version, msgs.take(j + 1)) is None);
                            assert(msgs.take(msgs.len() as int) =~= msgs);
                            lemma_fold_batch_none(account@, version, msgs, j + 1);
                        }
                        return Err(e);
                    },
                }
            }
            ver = mpos;
            j = j + 1;
        }
        proof {
            assert(msgs.take(msgs.len() as int) =~= msgs);
        }
        Ok((acc, ver))
    }
}

/// Once a prefix of the batch fails to fold, the whole batch does.
proof fn lemma_fold_batch_none(
    a: AccountView,
    ver: Option<i64>,
    msgs: Seq<MessageView>,
    j: int,
)
    requires
        0 <= j <= msgs.len(),
        fold_batch_model(a, ver, msgs.take(j)) is None,
    ensures
        fold_batch_model(a, ver, msgs) is None,
    decreases msgs.len() - j,
{
    if j < msgs.len() {
        assert(msgs.take(j + 1).drop_last() =~= msgs.take(j));
        lemma_fold_batch_none(a, ver, msgs, j + 1);
    } else {
        assert(msgs.take(j) =~= msgs);
    }
}

} // verus!
