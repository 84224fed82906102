//! The library's laws: properties that relate several operations, stated
//! over the same mathematical models that the operations' contracts use.

use vstd::prelude::*;
use crate::codec::{dec_log, enc_log, lemma_log_round_trip, msg_fits};
use crate::db::{roster_lookup, roster_remove, roster_upsert, contains_uid};
use crate::message_parse::{is_digit_char, is_qualifying, kata_name_spec};
use crate::katas::{lemma_strictly_sorted_distinct, strictly_sorted};
use crate::types::{ChatMessageV, CodeUserV, UserId};

verus! {

/// A text that does not begin with a decimal digit is never classified as a
/// solution posting.
pub proof fn lemma_not_digit_not_qualifying(s: Seq<char>)
    requires
        s.len() == 0 || !is_digit_char(s[0]),
    ensures
        !is_qualifying(s),
{
}

/// Name extraction is deterministic: one input has one canonical name, so
/// repeated extraction from the same unmodified text gives the same result.
pub proof fn lemma_extract_name_deterministic(s: Seq<char>, r1: Seq<char>, r2: Seq<char>)
    requires
        r1 == kata_name_spec(s),
        r2 == kata_name_spec(s),
    ensures
        r1 == r2,
{
}

/// After registering a participant, the roster holds exactly that record
/// under the participant's identifier.
pub proof fn lemma_register_then_lookup(ros: Seq<CodeUserV>, u: CodeUserV)
    ensures
        roster_lookup(roster_upsert(ros, u), u.telegram_id) == Some(u),
    decreases ros.len(),
{
    if !contains_uid(ros, u.telegram_id) {
        assert(roster_upsert(ros, u).last() == u);
    } else {
        let s = roster_upsert(ros, u);
        if ros.last().telegram_id == u.telegram_id {
            assert(s.last() == u);
        } else {
            let w = choose|i: int| 0 <= i < ros.len() && (#[trigger] ros[i]).telegram_id
                == u.telegram_id;
            assert(ros.drop_last()[w] == ros[w]);
            assert(contains_uid(ros.drop_last(), u.telegram_id));
            lemma_register_then_lookup(ros.drop_last(), u);
            assert(s.last() == ros.last());
            assert(s.drop_last() =~= roster_upsert(ros.drop_last(), u));
        }
    }
}

/// Registering one participant leaves every other identifier's record as it
/// was.
pub proof fn lemma_register_preserves_others(ros: Seq<CodeUserV>, u: CodeUserV, id: UserId)
    requires
        id != u.telegram_id,
    ensures
        roster_lookup(roster_upsert(ros, u), id) == roster_lookup(ros, id),
    decreases ros.len(),
{
    if !contains_uid(ros, u.telegram_id) {
        let s = ros.push(u);
        assert(s.last() == u);
        assert(s.drop_last() =~= ros);
    } else {
        let s = roster_upsert(ros, u);
        assert(s.last() == (if ros.last().telegram_id == u.telegram_id {
            u
        } else {
            ros.last()
        }));
        if ros.last().telegram_id == id {
            assert(s.last() == ros.last());
        } else {
            if contains_uid(ros.drop_last(), u.telegram_id) {
                lemma_register_preserves_others(ros.drop_last(), u, id);
                assert(s.drop_last() =~= roster_upsert(ros.drop_last(), u));
            } else {
                assert forall|i: int| 0 <= i < ros.len() - 1 implies (
                #[trigger] ros[i]).telegram_id != u.telegram_id by {
                    assert(ros.drop_last()[i] == ros[i]);
                }
                assert(ros.last().telegram_id == u.telegram_id);
                assert(s.drop_last() =~= ros.drop_last());
            }
        }
    }
}

/// After removing an identifier, the roster holds no record under it.
pub proof fn lemma_remove_then_lookup(ros: Seq<CodeUserV>, id: UserId)
    ensures
        roster_lookup(roster_remove(ros, id), id) is None,
    decreases ros.len(),
{
    if ros.len() > 0 {
        lemma_remove_then_lookup(ros.drop_last(), id);
        let pre = roster_remove(ros.drop_last(), id);
        if ros.last().telegram_id != id {
            assert(roster_remove(ros, id) == pre.push(ros.last()));
            assert(pre.push(ros.last()).drop_last() =~= pre);
            assert(pre.push(ros.last()).last() == ros.last());
        }
    }
}

/// Removing one identifier leaves every other identifier's record as it
/// was; in particular removing an absent identifier changes no lookup.
pub proof fn lemma_remove_preserves_others(ros: Seq<CodeUserV>, id: UserId, other: UserId)
    requires
        other != id,
    ensures
        roster_lookup(roster_remove(ros, id), other) == roster_lookup(ros, other),
    decreases ros.len(),
{
    if ros.len() > 0 {
        lemma_remove_preserves_others(ros.drop_last(), id, other);
        let pre = roster_remove(ros.drop_last(), id);
        if ros.last().telegram_id != id {
            assert(roster_remove(ros, id) == pre.push(ros.last()));
            assert(pre.push(ros.last()).drop_last() =~= pre);
        }
    }
}

/// The empty roster holds no record at all: after clearing, every lookup
/// comes back empty, and listing yields the empty mapping.
pub proof fn lemma_clear_then_lookup(id: UserId)
    ensures
        roster_lookup(Seq::<CodeUserV>::empty(), id) is None,
{
}

/// Appending to a log keeps every prior entry at its position and places
/// the new entry last: listing returns entries in append order.
pub proof fn lemma_append_keeps_order(log: Seq<ChatMessageV>, m: ChatMessageV)
    ensures
        log.push(m).len() == log.len() + 1,
        forall|k: int| 0 <= k < log.len() ==> log.push(m)[k] == log[k],
        log.push(m).last() == m,
{
}

/// A strictly sorted listing holds each name at most once: two logged
/// messages whose texts extract to the same name contribute one entry.
pub proof fn lemma_listing_distinct(s: Seq<String>)
    requires
        strictly_sorted(s),
    ensures
        forall|a: int, c: int| 0 <= a < c < s.len() ==> (#[trigger] s[a])@ != (#[trigger] s[c])@,
{
    lemma_strictly_sorted_distinct(s);
}

/// The documented race between two concurrent appends that both start from
/// the empty log: each writer serializes the one-entry log holding its own
/// message, and whichever single-key put lands last wins. Either way the
/// stored bytes are a complete, well-formed log holding exactly one of the
/// two messages — never a corrupted or partially written value.
pub proof fn lemma_concurrent_append_race(m1: ChatMessageV, m2: ChatMessageV)
    requires
        msg_fits(m1),
        msg_fits(m2),
    ensures
        dec_log(enc_log(seq![m1])) == Some(seq![m1]),
        dec_log(enc_log(seq![m2])) == Some(seq![m2]),
{
    lemma_log_round_trip(seq![m1]);
    lemma_log_round_trip(seq![m2]);
}

} // verus!
