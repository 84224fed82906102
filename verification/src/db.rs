//! The chat-partitioned persistence layer.
//!
//! Two durable key-to-bytes stores hold, per chat, a roster of participants
//! and a log of classified messages. Every operation is one read-modify-write
//! cycle over a single key: read the whole aggregate (absent means empty),
//! mutate it in memory, serialize it, and put it back. The cycle is not
//! atomic with respect to other writers of the same chat; only the single
//! get and the single put are.

use vstd::prelude::*;
use crate::codec::{
    dec_log, dec_roster, decode_log, decode_roster, enc_log, enc_roster, encode_chat_key,
    encode_log, encode_roster, lemma_key_injective, lemma_log_round_trip, lemma_roster_round_trip,
    spec_key, unique_uids,
};
use crate::types::{
    msgs_views, users_views, ChatId, ChatMessage, ChatMessageV, CodeUser, CodeUserV, PersistError,
    UserId,
};

verus! {

#[verifier::external_type_specification]
#[verifier::external_body]
pub struct ExDb(sled::Db);

#[verifier::external_type_specification]
#[verifier::external_body]
pub struct ExSledError(sled::Error);

/// What one store holds: a mapping from keys to values, both plain bytes.
pub uninterp spec fn db_view(db: sled::Db) -> Map<Seq<u8>, Seq<u8>>;

/// Relies on `sled::Tree::get`, reached through `sled::Db`'s `Deref`: it
/// returns a copy of the value stored under the key, nothing when the key is
/// absent, or the store's own error when the read fails.
#[verifier::external_body]
fn db_get(db: &sled::Db, key: &Vec<u8>) -> (r: Result<Option<Vec<u8>>, sled::Error>)
    ensures
        match r {
            Ok(Some(v)) => db_view(*db).contains_key(key@) && v@ == db_view(*db)[key@],
            Ok(None) => !db_view(*db).contains_key(key@),
            Err(_) => true,
        },
{
    match db.get(key.as_slice()) {
        Ok(Some(iv)) => Ok(Some(iv.as_ref().to_vec())),
        Ok(None) => Ok(None),
        Err(e) => Err(e),
    }
}

/// Relies on `sled::Tree::insert`, reached through `sled::Db`'s `Deref`: on
/// success the store maps the key to exactly the given value and no other
/// key changes; on failure nothing is promised about the store's contents.
#[verifier::external_body]
fn db_insert(db: &mut sled::Db, key: &Vec<u8>, value: &Vec<u8>) -> (r: Result<(), sled::Error>)
    ensures
        r is Ok ==> db_view(*final(db)) == db_view(*old(db)).insert(key@, value@),
{
    match db.insert(key.as_slice(), value.as_slice()) {
        Ok(_) => Ok(()),
        Err(e) => Err(e),
    }
}

// ---------------------------------------------------------------------------
// The roster as a mathematical value: a sequence of records with pairwise
// distinct participant identifiers, read as a mapping.
// ---------------------------------------------------------------------------

/// Some record of `ros` carries the identifier `id`.
pub open spec fn contains_uid(ros: Seq<CodeUserV>, id: UserId) -> bool {
    exists|i: int| 0 <= i < ros.len() && (#[trigger] ros[i]).telegram_id == id
}

/// Upsert: replace the record keyed by the new record's identifier, or
/// append the new record when that identifier is absent.
pub open spec fn roster_upsert(ros: Seq<CodeUserV>, u: CodeUserV) -> Seq<CodeUserV> {
    if contains_uid(ros, u.telegram_id) {
        Seq::new(
            ros.len(),
            |i: int|
                if ros[i].telegram_id == u.telegram_id {
                    u
                } else {
                    ros[i]
                },
        )
    } else {
        ros.push(u)
    }
}

/// Removal: every record keyed by `id` dropped; the rest kept in order.
pub open spec fn roster_remove(ros: Seq<CodeUserV>, id: UserId) -> Seq<CodeUserV>
    decreases ros.len(),
{
    if ros.len() == 0 {
        Seq::empty()
    } else {
        let pre = roster_remove(ros.drop_last(), id);
        if ros.last().telegram_id == id {
            pre
        } else {
            pre.push(ros.last())
        }
    }
}

/// The record keyed by `id`, when one is there.
pub open spec fn roster_lookup(ros: Seq<CodeUserV>, id: UserId) -> Option<CodeUserV>
    decreases ros.len(),
{
    if ros.len() == 0 {
        None
    } else if ros.last().telegram_id == id {
        Some(ros.last())
    } else {
        roster_lookup(ros.drop_last(), id)
    }
}

/// Upserting keeps identifiers pairwise distinct.
pub proof fn lemma_upsert_unique(ros: Seq<CodeUserV>, u: CodeUserV)
    requires
        unique_uids(ros),
    ensures
        unique_uids(roster_upsert(ros, u)),
{
    if contains_uid(ros, u.telegram_id) {
        let r = roster_upsert(ros, u);
        assert forall|i: int| 0 <= i < r.len() implies (#[trigger] r[i]).telegram_id == ros[
            i
        ].telegram_id by {}
    }
}

/// Removing keeps identifiers pairwise distinct, and keeps only records of
/// the original roster.
pub proof fn lemma_remove_unique(ros: Seq<CodeUserV>, id: UserId)
    requires
        unique_uids(ros),
    ensures
        unique_uids(roster_remove(ros, id)),
        forall|j: int|
            0 <= j < roster_remove(ros, id).len() ==> exists|i: int|
                0 <= i < ros.len() && #[trigger] roster_remove(ros, id)[j] == ros[i],
    decreases ros.len(),
{
    if ros.len() > 0 {
        let d = ros.drop_last();
        assert(unique_uids(d)) by {
            assert(forall|i: int| 0 <= i < d.len() ==> d[i] == ros[i]);
        }
        lemma_remove_unique(d, id);
        let pre = roster_remove(d, id);
        let r = roster_remove(ros, id);
        assert forall|j: int| 0 <= j < r.len() implies exists|i: int|
            0 <= i < ros.len() && #[trigger] r[j] == ros[i] by {
            if j < pre.len() {
                let i = choose|i: int| 0 <= i < d.len() && pre[j] == d[i];
                assert(r[j] == ros[i]);
            } else {
                assert(r[j] == ros[ros.len() - 1]);
            }
        }
        if ros.last().telegram_id != id {
            assert forall|a: int, c: int| 0 <= a < c < r.len() implies (
            #[trigger] r[a]).telegram_id != (#[trigger] r[c]).telegram_id by {
                if c == r.len() - 1 {
                    let i = choose|i: int| 0 <= i < d.len() && pre[a] == d[i];
                    assert(ros[i].telegram_id != ros[ros.len() - 1].telegram_id);
                }
            }
        }
    }
}

// ---------------------------------------------------------------------------
// In-memory mutation of a decoded roster.
// ---------------------------------------------------------------------------

/// Apply the upsert to a decoded roster.
fn vec_roster_upsert(v: Vec<CodeUser>, user: &CodeUser) -> (r: Vec<CodeUser>)
    ensures
        users_views(r@) == roster_upsert(users_views(v@), user@),
{
    let ghost vs = users_views(v@);
    let mut out: Vec<CodeUser> = Vec::new();
    let mut found = false;
    let mut i: usize = 0;
    while i < v.len()
        invariant
            0 <= i <= v@.len(),
            vs == users_views(v@),
            vs.len() == v@.len(),
            found == exists|k: int|
                0 <= k < i && (#[trigger] vs[k]).telegram_id == user@.telegram_id,
            out@.len() == i,
            forall|k: int|
                0 <= k < i ==> (#[trigger] out@[k])@ == (if vs[k].telegram_id
                    == user@.telegram_id {
                    user@
                } else {
                    vs[k]
                }),
        decreases v@.len() - i,
    {
        proof {
            assert(vs[i as int] == v@[i as int]@);
        }
        if v[i].telegram_id == user.telegram_id {
            out.push(user.duplicate());
            proof {
                assert((vs[i as int]).telegram_id == user@.telegram_id);
            }
            found = true;
        } else {
            out.push(v[i].duplicate());
        }
        i += 1;
    }
    if !found {
        out.push(user.duplicate());
        proof {
            assert(!contains_uid(vs, user@.telegram_id));
            assert(users_views(out@) =~= vs.push(user@));
        }
        out
    } else {
        proof {
            assert(contains_uid(vs, user@.telegram_id));
            assert(users_views(out@) =~= roster_upsert(vs, user@));
        }
        out
    }
}

/// Apply the removal to a decoded roster.
fn vec_roster_remove(v: Vec<CodeUser>, id: UserId) -> (r: Vec<CodeUser>)
    ensures
        users_views(r@) == roster_remove(users_views(v@), id),
{
    let ghost vs = users_views(v@);
    let mut out: Vec<CodeUser> = Vec::new();
    let mut i: usize = 0;
    while i < v.len()
        invariant
            0 <= i <= v@.len(),
            vs == users_views(v@),
            vs.len() == v@.len(),
            users_views(out@) == roster_remove(vs.take(i as int), id),
        decreases v@.len() - i,
    {
        let ghost pre = vs.take(i as int);
        proof {
            assert(vs.take(i + 1).drop_last() =~= pre);
            assert(vs.take(i + 1).last() == vs[i as int]);
        }
        if !(v[i].telegram_id == id) {
            out.push(v[i].duplicate());
            proof {
                assert(users_views(out@) =~= roster_remove(pre, id).push(vs[i as int]));
            }
        }
        i += 1;
    }
    assert(vs.take(vs.len() as int) =~= vs);
    out
}

// ---------------------------------------------------------------------------
// The persistence context and its operations.
// ---------------------------------------------------------------------------

/// The persistence context: the two backing stores, opened by the caller and
/// owned here for the process lifetime. Rosters and logs live under the same
/// chat key in their respective stores, so roster and log writes never
/// contend on one key.
pub struct Persist {
    users: sled::Db,
    messages: sled::Db,
}

impl Persist {
    /// The contents of the roster store.
    pub closed spec fn users_map(self) -> Map<Seq<u8>, Seq<u8>> {
        db_view(self.users)
    }

    /// The contents of the message-log store.
    pub closed spec fn msgs_map(self) -> Map<Seq<u8>, Seq<u8>> {
        db_view(self.messages)
    }

    /// The roster of one chat as a mathematical value: the empty roster when
    /// the chat has no entry, the decoded records when its bytes have the
    /// serialized-roster shape, and nothing when they are corrupt.
    pub open spec fn roster_state(self, chat: i64) -> Option<Seq<CodeUserV>> {
        if self.users_map().contains_key(spec_key(chat)) {
            dec_roster(self.users_map()[spec_key(chat)])
        } else {
            Some(Seq::empty())
        }
    }

    /// The message log of one chat as a mathematical value, in the same
    /// three-way reading as `roster_state`.
    pub open spec fn log_state(self, chat: i64) -> Option<Seq<ChatMessageV>> {
        if self.msgs_map().contains_key(spec_key(chat)) {
            dec_log(self.msgs_map()[spec_key(chat)])
        } else {
            Some(Seq::empty())
        }
    }

    /// Wrap the two opened stores into one context.
    pub fn new(db: sled::Db, msg_db: sled::Db) -> (r: Persist)
        ensures
            r.users_map() == db_view(db),
            r.msgs_map() == db_view(msg_db),
    {
        Persist { users: db, messages: msg_db }
    }

    /// Append one classified message to a chat's log. Creates the log when
    /// the chat is unseen; keeps every prior entry and its order.
    pub fn add_message(&mut self, chat_id: ChatId, msg: ChatMessage) -> (r: Result<
        (),
        PersistError,
    >)
        ensures
            final(self).users_map() == old(self).users_map(),
            match r {
                Ok(()) => old(self).log_state(chat_id.0) matches Some(prior) && final(self).msgs_map() == old(self).msgs_map().insert(
                    spec_key(chat_id.0),
                    enc_log(prior.push(msg@)),
                ) && final(self).log_state(chat_id.0) == Some(prior.push(msg@)) && (forall|c: i64|
                    c != chat_id.0 ==> final(self).log_state(c) == old(self).log_state(c)),
                Err(e) => e == PersistError::StoreIo || (e == PersistError::Serialization && *final(self) == *old(self) && old(self).log_state(chat_id.0) is None),
            },
    {
        let key = encode_chat_key(chat_id);
        let stored = match db_get(&self.messages, &key) {
            Err(_) => {
                return Err(PersistError::StoreIo);
            },
            Ok(o) => o,
        };
        let mut log: Vec<ChatMessage> = match stored {
            None => Vec::new(),
            Some(bytes) => match decode_log(&bytes) {
                None => {
                    return Err(PersistError::Serialization);
                },
                Some(v) => v,
            },
        };
        let ghost prior = msgs_views(log@);
        assert(old(self).log_state(chat_id.0) == Some(prior)) by {
            assert(msgs_views(Seq::<ChatMessage>::empty()) =~= Seq::<ChatMessageV>::empty());
        }
        log.push(msg);
        assert(msgs_views(log@) =~= prior.push(msg@));
        let bytes2 = encode_log(&log);
        match db_insert(&mut self.messages, &key, &bytes2) {
            Err(_) => Err(PersistError::StoreIo),
            Ok(()) => {
                proof {
                    lemma_log_round_trip(msgs_views(log@));
                    assert forall|c: i64| c != chat_id.0 implies final(self).log_state(c) == old(self).log_state(c) by {
                        if spec_key(c) == spec_key(chat_id.0) {
                            lemma_key_injective(c, chat_id.0);
                        }
                    }
                }
                Ok(())
            },
        }
    }

    /// Register a participant in a chat's roster: an upsert keyed by the
    /// participant identifier, replacing any prior record entirely.
    pub fn add_user(&mut self, chat_id: ChatId, user: CodeUser) -> (r: Result<(), PersistError>)
        ensures
            final(self).msgs_map() == old(self).msgs_map(),
            match r {
                Ok(()) => old(self).roster_state(chat_id.0) matches Some(prior) && final(self).users_map() == old(self).users_map().insert(
                    spec_key(chat_id.0),
                    enc_roster(roster_upsert(prior, user@)),
                ) && final(self).roster_state(chat_id.0) == Some(roster_upsert(prior, user@)) && (
                forall|c: i64|
                    c != chat_id.0 ==> final(self).roster_state(c) == old(self).roster_state(c)),
                Err(e) => e == PersistError::StoreIo || (e == PersistError::Serialization && *final(self) == *old(self) && old(self).roster_state(chat_id.0) is None),
            },
    {
        let key = encode_chat_key(chat_id);
        let stored = match db_get(&self.users, &key) {
            Err(_) => {
                return Err(PersistError::StoreIo);
            },
            Ok(o) => o,
        };
        let roster: Vec<CodeUser> = match stored {
            None => Vec::new(),
            Some(bytes) => match decode_roster(&bytes) {
                None => {
                    return Err(PersistError::Serialization);
                },
                Some(v) => v,
            },
        };
        let ghost prior = users_views(roster@);
        assert(old(self).roster_state(chat_id.0) == Some(prior) && unique_uids(prior)) by {
            assert(users_views(Seq::<CodeUser>::empty()) =~= Seq::<CodeUserV>::empty());
        }
        let updated = vec_roster_upsert(roster, &user);
        let bytes2 = encode_roster(&updated);
        match db_insert(&mut self.users, &key, &bytes2) {
            Err(_) => Err(PersistError::StoreIo),
            Ok(()) => {
                proof {
                    lemma_upsert_unique(prior, user@);
                    lemma_roster_round_trip(users_views(updated@));
                    assert forall|c: i64| c != chat_id.0 implies final(self).roster_state(c) == old(self).roster_state(c) by {
                        if spec_key(c) == spec_key(chat_id.0) {
                            lemma_key_injective(c, chat_id.0);
                        }
                    }
                }
                Ok(())
            },
        }
    }

    /// Remove the participant keyed by `user_to_remove` from a chat's
    /// roster; a no-op when no such participant is registered.
    pub fn remove_user(&mut self, chat_id: ChatId, user_to_remove: UserId) -> (r: Result<
        (),
        PersistError,
    >)
        ensures
            final(self).msgs_map() == old(self).msgs_map(),
            match r {
                Ok(()) => old(self).roster_state(chat_id.0) matches Some(prior) && final(self).users_map() == old(self).users_map().insert(
                    spec_key(chat_id.0),
                    enc_roster(roster_remove(prior, user_to_remove)),
                ) && final(self).roster_state(chat_id.0) == Some(
                    roster_remove(prior, user_to_remove),
                ) && (forall|c: i64|
                    c != chat_id.0 ==> final(self).roster_state(c) == old(self).roster_state(c)),
                Err(e) => e == PersistError::StoreIo || (e == PersistError::Serialization && *final(self) == *old(self) && old(self).roster_state(chat_id.0) is None),
            },
    {
        let key = encode_chat_key(chat_id);
        let stored = match db_get(&self.users, &key) {
            Err(_) => {
                return Err(PersistError::StoreIo);
            },
            Ok(o) => o,
        };
        let roster: Vec<CodeUser> = match stored {
            None => Vec::new(),
            Some(bytes) => match decode_roster(&bytes) {
                None => {
                    return Err(PersistError::Serialization);
                },
                Some(v) => v,
            },
        };
        let ghost prior = users_views(roster@);
        assert(old(self).roster_state(chat_id.0) == Some(prior) && unique_uids(prior)) by {
            assert(users_views(Seq::<CodeUser>::empty()) =~= Seq::<CodeUserV>::empty());
        }
        let updated = vec_roster_remove(roster, user_to_remove);
        let bytes2 = encode_roster(&updated);
        match db_insert(&mut self.users, &key, &bytes2) {
            Err(_) => Err(PersistError::StoreIo),
            Ok(()) => {
                proof {
                    lemma_remove_unique(prior, user_to_remove);
                    lemma_roster_round_trip(users_views(updated@));
                    assert forall|c: i64| c != chat_id.0 implies final(self).roster_state(c) == old(self).roster_state(c) by {
                        if spec_key(c) == spec_key(chat_id.0) {
                            lemma_key_injective(c, chat_id.0);
                        }
                    }
                }
                Ok(())
            },
        }
    }

    /// Replace a chat's roster with the empty roster. The chat's key stays,
    /// so later reads see an empty roster, never a missing one.
    pub fn clear_users(&mut self, chat_id: ChatId) -> (r: Result<(), PersistError>)
        ensures
            final(self).msgs_map() == old(self).msgs_map(),
            match r {
                Ok(()) => final(self).users_map() == old(self).users_map().insert(
                    spec_key(chat_id.0),
                    enc_roster(Seq::empty()),
                ) && final(self).roster_state(chat_id.0) == Some(Seq::<CodeUserV>::empty()) && (
                forall|c: i64|
                    c != chat_id.0 ==> final(self).roster_state(c) == old(self).roster_state(c)),
                Err(e) => e == PersistError::StoreIo,
            },
    {
        let key = encode_chat_key(chat_id);
        let empty: Vec<CodeUser> = Vec::new();
        let bytes = encode_roster(&empty);
        assert(users_views(empty@) =~= Seq::<CodeUserV>::empty());
        match db_insert(&mut self.users, &key, &bytes) {
            Err(_) => Err(PersistError::StoreIo),
            Ok(()) => {
                proof {
                    lemma_roster_round_trip(Seq::<CodeUserV>::empty());
                    assert forall|c: i64| c != chat_id.0 implies final(self).roster_state(c) == old(self).roster_state(c) by {
                        if spec_key(c) == spec_key(chat_id.0) {
                            lemma_key_injective(c, chat_id.0);
                        }
                    }
                }
                Ok(())
            },
        }
    }

    /// Replace a chat's message log with the empty log. The chat's key
    /// stays, so later reads see an empty log, never a missing one.
    pub fn clear_messages(&mut self, chat_id: ChatId) -> (r: Result<(), PersistError>)
        ensures
            final(self).users_map() == old(self).users_map(),
            match r {
                Ok(()) => final(self).msgs_map() == old(self).msgs_map().insert(
                    spec_key(chat_id.0),
                    enc_log(Seq::empty()),
                ) && final(self).log_state(chat_id.0) == Some(Seq::<ChatMessageV>::empty()) && (
                forall|c: i64|
                    c != chat_id.0 ==> final(self).log_state(c) == old(self).log_state(c)),
                Err(e) => e == PersistError::StoreIo,
            },
    {
        let key = encode_chat_key(chat_id);
        let empty: Vec<ChatMessage> = Vec::new();
        let bytes = encode_log(&empty);
        assert(msgs_views(empty@) =~= Seq::<ChatMessageV>::empty());
        match db_insert(&mut self.messages, &key, &bytes) {
            Err(_) => Err(PersistError::StoreIo),
            Ok(()) => {
                proof {
                    lemma_log_round_trip(Seq::<ChatMessageV>::empty());
                    assert forall|c: i64| c != chat_id.0 implies final(self).log_state(c) == old(self).log_state(c) by {
                        if spec_key(c) == spec_key(chat_id.0) {
                            lemma_key_injective(c, chat_id.0);
                        }
                    }
                }
                Ok(())
            },
        }
    }

    /// A snapshot of a chat's roster; the empty roster for an unseen chat.
    pub fn get_users(&self, chat_id: ChatId) -> (r: Result<Vec<CodeUser>, PersistError>)
        ensures
            match r {
                Ok(v) => self.roster_state(chat_id.0) == Some(users_views(v@)) && unique_uids(
                    users_views(v@),
                ),
                Err(e) => e == PersistError::StoreIo || (e == PersistError::Serialization
                    && self.roster_state(chat_id.0) is None),
            },
    {
        let key = encode_chat_key(chat_id);
        match db_get(&self.users, &key) {
            Err(_) => Err(PersistError::StoreIo),
            Ok(None) => {
                let v: Vec<CodeUser> = Vec::new();
                assert(users_views(v@) =~= Seq::<CodeUserV>::empty());
                Ok(v)
            },
            Ok(Some(bytes)) => match decode_roster(&bytes) {
                None => Err(PersistError::Serialization),
                Some(v) => Ok(v),
            },
        }
    }

    /// A snapshot of a chat's message log, in append order; the empty log
    /// for an unseen chat.
    pub fn get_messages(&self, chat_id: ChatId) -> (r: Result<Vec<ChatMessage>, PersistError>)
        ensures
            match r {
                Ok(v) => self.log_state(chat_id.0) == Some(msgs_views(v@)),
                Err(e) => e == PersistError::StoreIo || (e == PersistError::Serialization
                    && self.log_state(chat_id.0) is None),
            },
    {
        let key = encode_chat_key(chat_id);
        match db_get(&self.messages, &key) {
            Err(_) => Err(PersistError::StoreIo),
            Ok(None) => {
                let v: Vec<ChatMessage> = Vec::new();
                assert(msgs_views(v@) =~= Seq::<ChatMessageV>::empty());
                Ok(v)
            },
            Ok(Some(bytes)) => match decode_log(&bytes) {
                None => Err(PersistError::Serialization),
                Some(v) => Ok(v),
            },
        }
    }
}

} // verus!
