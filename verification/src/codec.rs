//! The serialized shape of the stored aggregates.
//!
//! The persistence layer stores each chat's roster and message log as one
//! value of bytes. This module fixes that shape: little-endian length
//! prefixes, UTF-8 string payloads, and records in sequence. Encoding and
//! decoding are verified against each other: decoding an encoded aggregate
//! gives back exactly the aggregate.

use vstd::prelude::*;
use vstd::bytes::*;
use vstd::utf8::*;
use vstd::slice::*;
use crate::types::{ChatId, ChatMessage, ChatMessageV, CodeUser, CodeUserV, UserId};
use crate::types::{msgs_views, users_views};

verus! {

/// Participant identifiers are pairwise distinct.
pub open spec fn unique_uids(s: Seq<CodeUserV>) -> bool {
    forall|i: int, j: int|
        0 <= i < j < s.len() ==> #[trigger] s[i].telegram_id != #[trigger] s[j].telegram_id
}

/// The store key under which a chat's aggregate is held.
pub open spec fn spec_key(chat: i64) -> Seq<u8> {
    spec_u64_to_le_bytes(chat as u64)
}

/// The encoding of one string: byte length, then the UTF-8 bytes.
pub open spec fn enc_str(s: Seq<char>) -> Seq<u8> {
    spec_u64_to_le_bytes(encode_utf8(s).len() as u64) + encode_utf8(s)
}

/// The encoding of an optional string: a presence tag, then the string.
pub open spec fn enc_opt_str(o: Option<Seq<char>>) -> Seq<u8> {
    match o {
        None => seq![0u8],
        Some(s) => seq![1u8] + enc_str(s),
    }
}

/// The encoding of a 32-bit integer: its bit pattern, little endian.
pub open spec fn enc_i32(x: i32) -> Seq<u8> {
    spec_u32_to_le_bytes(x as u32)
}

/// The encoding of one participant record.
pub open spec fn enc_user(u: CodeUserV) -> Seq<u8> {
    enc_opt_str(u.username) + enc_str(u.firstname) + enc_i32(u.telegram_id.0) + enc_str(
        u.codewars_name,
    )
}

/// The encodings of a sequence of participant records, in order.
pub open spec fn enc_users(s: Seq<CodeUserV>) -> Seq<u8>
    decreases s.len(),
{
    if s.len() == 0 {
        Seq::empty()
    } else {
        enc_user(s[0]) + enc_users(s.drop_first())
    }
}

/// The encoding of a whole roster: record count, then the records.
pub open spec fn enc_roster(s: Seq<CodeUserV>) -> Seq<u8> {
    spec_u64_to_le_bytes(s.len() as u64) + enc_users(s)
}

/// The encoding of one logged message.
pub open spec fn enc_msg(m: ChatMessageV) -> Seq<u8> {
    enc_i32(m.id) + enc_i32(m.from.0) + enc_str(m.text)
}

/// The encodings of a sequence of logged messages, in order.
pub open spec fn enc_msgs(s: Seq<ChatMessageV>) -> Seq<u8>
    decreases s.len(),
{
    if s.len() == 0 {
        Seq::empty()
    } else {
        enc_msg(s[0]) + enc_msgs(s.drop_first())
    }
}

/// The encoding of a whole message log: entry count, then the entries.
pub open spec fn enc_log(s: Seq<ChatMessageV>) -> Seq<u8> {
    spec_u64_to_le_bytes(s.len() as u64) + enc_msgs(s)
}

/// The string's byte length fits the length prefix.
pub open spec fn str_fits(s: Seq<char>) -> bool {
    encode_utf8(s).len() <= u64::MAX
}

/// All strings of the record fit their length prefixes.
pub open spec fn user_fits(u: CodeUserV) -> bool {
    &&& match u.username {
        Some(s) => str_fits(s),
        None => true,
    }
    &&& str_fits(u.firstname)
    &&& str_fits(u.codewars_name)
}

/// The roster's count and every string of it fit their prefixes.
pub open spec fn roster_fits(s: Seq<CodeUserV>) -> bool {
    s.len() <= u64::MAX && forall|i: int| 0 <= i < s.len() ==> #[trigger] user_fits(s[i])
}

/// The message's text fits its length prefix.
pub open spec fn msg_fits(m: ChatMessageV) -> bool {
    str_fits(m.text)
}

/// The log's count and every text of it fit their prefixes.
pub open spec fn log_fits(s: Seq<ChatMessageV>) -> bool {
    s.len() <= u64::MAX && forall|i: int| 0 <= i < s.len() ==> #[trigger] msg_fits(s[i])
}

// ---------------------------------------------------------------------------
// Decoding, as a mathematical function of the bytes. A decoder at position
// `p` yields the decoded value and the position after it, or nothing when
// the bytes do not have the expected shape there.
// ---------------------------------------------------------------------------

/// Decode a 64-bit length or count at `p`.
pub open spec fn dec_u64_at(b: Seq<u8>, p: int) -> Option<(u64, int)> {
    if 0 <= p && p + 8 <= b.len() {
        Some((spec_u64_from_le_bytes(b.subrange(p, p + 8)), p + 8))
    } else {
        None
    }
}

/// Decode a 32-bit integer at `p`.
pub open spec fn dec_i32_at(b: Seq<u8>, p: int) -> Option<(i32, int)> {
    if 0 <= p && p + 4 <= b.len() {
        Some(((spec_u32_from_le_bytes(b.subrange(p, p + 4)) as i32), p + 4))
    } else {
        None
    }
}

/// Decode a length-prefixed UTF-8 string at `p`.
pub open spec fn dec_str_at(b: Seq<u8>, p: int) -> Option<(Seq<char>, int)> {
    match dec_u64_at(b, p) {
        None => None,
        Some((n, q)) => if q + n <= b.len() && valid_utf8(b.subrange(q, q + n)) {
            Some((decode_utf8(b.subrange(q, q + n)), q + n))
        } else {
            None
        },
    }
}

/// Decode a tagged optional string at `p`.
pub open spec fn dec_opt_str_at(b: Seq<u8>, p: int) -> Option<(Option<Seq<char>>, int)> {
    if 0 <= p && p < b.len() {
        if b[p] == 0u8 {
            Some((None, p + 1))
        } else if b[p] == 1u8 {
            match dec_str_at(b, p + 1) {
                None => None,
                Some((s, q)) => Some((Some(s), q)),
            }
        } else {
            None
        }
    } else {
        None
    }
}

/// Decode one participant record at `p`.
pub open spec fn dec_user_at(b: Seq<u8>, p: int) -> Option<(CodeUserV, int)> {
    match dec_opt_str_at(b, p) {
        None => None,
        Some((username, p1)) => match dec_str_at(b, p1) {
            None => None,
            Some((firstname, p2)) => match dec_i32_at(b, p2) {
                None => None,
                Some((uid, p3)) => match dec_str_at(b, p3) {
                    None => None,
                    Some((codewars_name, p4)) => Some(
                        (
                            CodeUserV {
                                username,
                                firstname,
                                telegram_id: UserId(uid),
                                codewars_name,
                            },
                            p4,
                        ),
                    ),
                },
            },
        },
    }
}

/// Decode `k` participant records in sequence starting at `p`.
pub open spec fn dec_users_at(b: Seq<u8>, p: int, k: nat) -> Option<(Seq<CodeUserV>, int)>
    decreases k,
{
    if k == 0 {
        Some((Seq::empty(), p))
    } else {
        match dec_user_at(b, p) {
            None => None,
            Some((u, q)) => match dec_users_at(b, q, (k - 1) as nat) {
                None => None,
                Some((us, e)) => Some((seq![u] + us, e)),
            },
        }
    }
}

/// Decode a whole roster value. The bytes must be consumed exactly and the
/// records must form a mapping: duplicate participant identifiers are not a
/// valid roster.
pub open spec fn dec_roster(b: Seq<u8>) -> Option<Seq<CodeUserV>> {
    match dec_u64_at(b, 0) {
        None => None,
        Some((n, p)) => match dec_users_at(b, p, n as nat) {
            None => None,
            Some((us, e)) => if e == b.len() && unique_uids(us) {
                Some(us)
            } else {
                None
            },
        },
    }
}

/// Decode one logged message at `p`.
pub open spec fn dec_msg_at(b: Seq<u8>, p: int) -> Option<(ChatMessageV, int)> {
    match dec_i32_at(b, p) {
        None => None,
        Some((id, p1)) => match dec_i32_at(b, p1) {
            None => None,
            Some((from, p2)) => match dec_str_at(b, p2) {
                None => None,
                Some((text, p3)) => Some((ChatMessageV { id, text, from: UserId(from) }, p3)),
            },
        },
    }
}

/// Decode `k` logged messages in sequence starting at `p`.
pub open spec fn dec_msgs_at(b: Seq<u8>, p: int, k: nat) -> Option<(Seq<ChatMessageV>, int)>
    decreases k,
{
    if k == 0 {
        Some((Seq::empty(), p))
    } else {
        match dec_msg_at(b, p) {
            None => None,
            Some((m, q)) => match dec_msgs_at(b, q, (k - 1) as nat) {
                None => None,
                Some((ms, e)) => Some((seq![m] + ms, e)),
            },
        }
    }
}

/// Decode a whole message log value; the bytes must be consumed exactly.
pub open spec fn dec_log(b: Seq<u8>) -> Option<Seq<ChatMessageV>> {
    match dec_u64_at(b, 0) {
        None => None,
        Some((n, p)) => match dec_msgs_at(b, p, n as nat) {
            None => None,
            Some((ms, e)) => if e == b.len() {
                Some(ms)
            } else {
                None
            },
        },
    }
}

// ---------------------------------------------------------------------------
// Executable encoders.
// ---------------------------------------------------------------------------

/// A signed 64-bit value keeps its bit pattern across the unsigned cast.
proof fn lemma_i64_cast(x: i64)
    by (bit_vector)
    ensures
        ((x as u64) as i64) == x,
{
}

/// A signed 32-bit value keeps its bit pattern across the unsigned cast.
proof fn lemma_i32_cast(x: i32)
    by (bit_vector)
    ensures
        ((x as u32) as i32) == x,
{
}

/// Distinct chats are stored under distinct keys.
pub proof fn lemma_key_injective(c1: i64, c2: i64)
    requires
        spec_key(c1) == spec_key(c2),
    ensures
        c1 == c2,
{
    lemma_auto_spec_u64_to_from_le_bytes();
    assert(spec_u64_from_le_bytes(spec_key(c1)) == c1 as u64);
    assert(spec_u64_from_le_bytes(spec_key(c2)) == c2 as u64);
    lemma_i64_cast(c1);
    lemma_i64_cast(c2);
}

/// The store key for one chat.
pub fn encode_chat_key(chat: ChatId) -> (r: Vec<u8>)
    ensures
        r@ == spec_key(chat.0),
{
    let u: u64 = #[verifier::truncate] (chat.0 as u64);
    u64_to_le_bytes(u)
}

/// Append the encoding of one string.
fn encode_str_into(out: &mut Vec<u8>, s: &String)
    ensures
        final(out)@ == old(out)@ + enc_str(s@),
        str_fits(s@),
{
    let bs = s.as_str().as_bytes();
    let n: usize = bs.len();
    let lenv = u64_to_le_bytes(n as u64);
    out.extend_from_slice(lenv.as_slice());
    out.extend_from_slice(bs);
    assert(final(out)@ =~= old(out)@ + enc_str(s@));
}

/// Append the encoding of an optional string.
fn encode_opt_str_into(out: &mut Vec<u8>, s: &Option<String>)
    ensures
        final(out)@ == old(out)@ + enc_opt_str(match s {
            Some(x) => Some(x@),
            None => None,
        }),
        match s {
            Some(x) => str_fits(x@),
            None => true,
        },
{
    match s {
        None => {
            out.push(0u8);
            assert(final(out)@ =~= old(out)@ + enc_opt_str(None));
        },
        Some(x) => {
            out.push(1u8);
            encode_str_into(out, x);
            assert(final(out)@ =~= old(out)@ + enc_opt_str(Some(x@)));
        },
    }
}

/// Append the encoding of a 32-bit integer.
fn encode_i32_into(out: &mut Vec<u8>, x: i32)
    ensures
        final(out)@ == old(out)@ + enc_i32(x),
{
    let u: u32 = #[verifier::truncate] (x as u32);
    let v = u32_to_le_bytes(u);
    out.extend_from_slice(v.as_slice());
}

/// Append the encoding of one participant record.
fn encode_user_into(out: &mut Vec<u8>, u: &CodeUser)
    ensures
        final(out)@ == old(out)@ + enc_user(u@),
        user_fits(u@),
{
    encode_opt_str_into(out, &u.username);
    encode_str_into(out, &u.firstname);
    encode_i32_into(out, u.telegram_id.0);
    encode_str_into(out, &u.codewars_name);
    assert(final(out)@ =~= old(out)@ + enc_user(u@));
}

/// Appending one record extends the encoding of a record sequence.
proof fn lemma_enc_users_push(s: Seq<CodeUserV>, u: CodeUserV)
    ensures
        enc_users(s.push(u)) == enc_users(s) + enc_user(u),
    decreases s.len(),
{
    if s.len() == 0 {
        let t = s.push(u);
        assert(t[0] == u);
        assert(t.drop_first() =~= s);
        assert(enc_users(t) == enc_user(u) + enc_users(s));
        assert(enc_users(s) == Seq::<u8>::empty());
        assert(enc_user(u) + Seq::<u8>::empty() =~= Seq::<u8>::empty() + enc_user(u));
    } else {
        let t = s.push(u);
        assert(t[0] == s[0]);
        assert(t.drop_first() =~= s.drop_first().push(u));
        lemma_enc_users_push(s.drop_first(), u);
        assert(enc_users(t) == enc_user(s[0]) + (enc_users(s.drop_first()) + enc_user(u)));
        assert(enc_user(s[0]) + (enc_users(s.drop_first()) + enc_user(u)) =~= (enc_user(s[0])
            + enc_users(s.drop_first())) + enc_user(u));
    }
}

/// Appending one message extends the encoding of a message sequence.
proof fn lemma_enc_msgs_push(s: Seq<ChatMessageV>, m: ChatMessageV)
    ensures
        enc_msgs(s.push(m)) == enc_msgs(s) + enc_msg(m),
    decreases s.len(),
{
    if s.len() == 0 {
        let t = s.push(m);
        assert(t[0] == m);
        assert(t.drop_first() =~= s);
        assert(enc_msgs(t) == enc_msg(m) + enc_msgs(s));
        assert(enc_msgs(s) == Seq::<u8>::empty());
        assert(enc_msg(m) + Seq::<u8>::empty() =~= Seq::<u8>::empty() + enc_msg(m));
    } else {
        let t = s.push(m);
        assert(t[0] == s[0]);
        assert(t.drop_first() =~= s.drop_first().push(m));
        lemma_enc_msgs_push(s.drop_first(), m);
        assert(enc_msgs(t) == enc_msg(s[0]) + (enc_msgs(s.drop_first()) + enc_msg(m)));
        assert(enc_msg(s[0]) + (enc_msgs(s.drop_first()) + enc_msg(m)) =~= (enc_msg(s[0])
            + enc_msgs(s.drop_first())) + enc_msg(m));
    }
}

/// Serialize a roster.
pub fn encode_roster(users: &Vec<CodeUser>) -> (r: Vec<u8>)
    ensures
        r@ == enc_roster(users_views(users@)),
        roster_fits(users_views(users@)),
{
    let ghost vs = users_views(users@);
    let mut out: Vec<u8> = Vec::new();
    let count = u64_to_le_bytes(users.len() as u64);
    out.extend_from_slice(count.as_slice());
    assert(vs.len() == users@.len());
    let mut i: usize = 0;
    while i < users.len()
        invariant
            0 <= i <= users@.len(),
            vs == users_views(users@),
            vs.len() == users@.len(),
            out@ == spec_u64_to_le_bytes(users@.len() as u64) + enc_users(vs.take(i as int)),
            forall|k: int| 0 <= k < i ==> #[trigger] user_fits(vs[k]),
        decreases users@.len() - i,
    {
        encode_user_into(&mut out, &users[i]);
        proof {
            assert(vs.take(i + 1) =~= vs.take(i as int).push(vs[i as int]));
            lemma_enc_users_push(vs.take(i as int), vs[i as int]);
            assert(vs[i as int] == users@[i as int]@);
        }
        i += 1;
    }
    assert(vs.take(vs.len() as int) =~= vs);
    out
}

/// Serialize a message log.
pub fn encode_log(msgs: &Vec<ChatMessage>) -> (r: Vec<u8>)
    ensures
        r@ == enc_log(msgs_views(msgs@)),
        log_fits(msgs_views(msgs@)),
{
    let ghost vs = msgs_views(msgs@);
    let mut out: Vec<u8> = Vec::new();
    let count = u64_to_le_bytes(msgs.len() as u64);
    out.extend_from_slice(count.as_slice());
    assert(vs.len() == msgs@.len());
    let mut i: usize = 0;
    while i < msgs.len()
        invariant
            0 <= i <= msgs@.len(),
            vs == msgs_views(msgs@),
            vs.len() == msgs@.len(),
            out@ == spec_u64_to_le_bytes(msgs@.len() as u64) + enc_msgs(vs.take(i as int)),
            forall|k: int| 0 <= k < i ==> #[trigger] msg_fits(vs[k]),
        decreases msgs@.len() - i,
    {
        let m = &msgs[i];
        encode_i32_into(&mut out, m.id);
        encode_i32_into(&mut out, m.from.0);
        encode_str_into(&mut out, &m.text);
        proof {
            assert(vs.take(i + 1) =~= vs.take(i as int).push(vs[i as int]));
            lemma_enc_msgs_push(vs.take(i as int), vs[i as int]);
            assert(vs[i as int] == msgs@[i as int]@);
            assert(out@ =~= spec_u64_to_le_bytes(msgs@.len() as u64) + enc_msgs(
                vs.take(i + 1),
            ));
        }
        i += 1;
    }
    assert(vs.take(vs.len() as int) =~= vs);
    out
}

// ---------------------------------------------------------------------------
// Executable decoders, each proved to compute its mathematical counterpart.
// ---------------------------------------------------------------------------

/// Relies on `String::from_utf8`: it succeeds exactly on valid UTF-8 input
/// and returns the string whose UTF-8 encoding is exactly that input.
#[verifier::external_body]
fn string_from_utf8(bytes: Vec<u8>) -> (r: Option<String>)
    ensures
        r matches Some(s) ==> valid_utf8(bytes@) && encode_utf8(s@) == bytes@,
        r is None ==> !valid_utf8(bytes@),
{
    match String::from_utf8(bytes) {
        Ok(s) => Some(s),
        Err(_) => None,
    }
}

/// Read a 64-bit length or count at `p`.
fn read_u64_at(b: &Vec<u8>, p: usize) -> (r: Option<(u64, usize)>)
    requires
        p <= b@.len(),
    ensures
        match r {
            Some(t) => dec_u64_at(b@, p as int) == Some((t.0, t.1 as int)) && p < t.1 <= b@.len(),
            None => dec_u64_at(b@, p as int) is None,
        },
{
    if b.len() - p < 8 {
        return None;
    }
    let s = slice_subrange(b.as_slice(), p, p + 8);
    let x = u64_from_le_bytes(s);
    Some((x, p + 8))
}

/// Read a 32-bit integer at `p`.
fn read_i32_at(b: &Vec<u8>, p: usize) -> (r: Option<(i32, usize)>)
    requires
        p <= b@.len(),
    ensures
        match r {
            Some(t) => dec_i32_at(b@, p as int) == Some((t.0, t.1 as int)) && p < t.1 <= b@.len(),
            None => dec_i32_at(b@, p as int) is None,
        },
{
    if b.len() - p < 4 {
        return None;
    }
    let s = slice_subrange(b.as_slice(), p, p + 4);
    let x = u32_from_le_bytes(s);
    let v: i32 = #[verifier::truncate] (x as i32);
    Some((v, p + 4))
}

/// Read a length-prefixed UTF-8 string at `p`.
fn read_str_at(b: &Vec<u8>, p: usize) -> (r: Option<(String, usize)>)
    requires
        p <= b@.len(),
    ensures
        match r {
            Some(t) => dec_str_at(b@, p as int) == Some((t.0@, t.1 as int)) && p < t.1 <= b@.len(),
            None => dec_str_at(b@, p as int) is None,
        },
{
    match read_u64_at(b, p) {
        None => None,
        Some((n64, p1)) => {
            if n64 > (b.len() - p1) as u64 {
                return None;
            }
            let n: usize = n64 as usize;
            let payload = slice_to_vec(slice_subrange(b.as_slice(), p1, p1 + n));
            match string_from_utf8(payload) {
                None => None,
                Some(s) => {
                    proof {
                        encode_utf8_decode_utf8(s@);
                    }
                    Some((s, p1 + n))
                },
            }
        },
    }
}

/// Read a tagged optional string at `p`.
fn read_opt_str_at(b: &Vec<u8>, p: usize) -> (r: Option<(Option<String>, usize)>)
    requires
        p <= b@.len(),
    ensures
        match r {
            Some(t) => dec_opt_str_at(b@, p as int) == Some(
                (
                    match t.0 {
                        Some(s) => Some(s@),
                        None => None::<Seq<char>>,
                    },
                    t.1 as int,
                ),
            ) && p < t.1 <= b@.len(),
            None => dec_opt_str_at(b@, p as int) is None,
        },
{
    if p >= b.len() {
        return None;
    }
    let tag = b[p];
    if tag == 0 {
        Some((None, p + 1))
    } else if tag == 1 {
        match read_str_at(b, p + 1) {
            None => None,
            Some((s, q)) => Some((Some(s), q)),
        }
    } else {
        None
    }
}

/// Read one participant record at `p`.
fn read_user_at(b: &Vec<u8>, p: usize) -> (r: Option<(CodeUser, usize)>)
    requires
        p <= b@.len(),
    ensures
        match r {
            Some(t) => dec_user_at(b@, p as int) == Some((t.0@, t.1 as int)) && p < t.1 <= b@.len(),
            None => dec_user_at(b@, p as int) is None,
        },
{
    match read_opt_str_at(b, p) {
        None => None,
        Some((username, p1)) => match read_str_at(b, p1) {
            None => None,
            Some((firstname, p2)) => match read_i32_at(b, p2) {
                None => None,
                Some((uid, p3)) => match read_str_at(b, p3) {
                    None => None,
                    Some((codewars_name, p4)) => Some(
                        (
                            CodeUser {
                                username,
                                firstname,
                                telegram_id: UserId(uid),
                                codewars_name,
                            },
                            p4,
                        ),
                    ),
                },
            },
        },
    }
}

/// Read `k` participant records in sequence starting at `p`.
fn read_users_at(b: &Vec<u8>, p: usize, k: u64) -> (r: Option<(Vec<CodeUser>, usize)>)
    requires
        p <= b@.len(),
    ensures
        match r {
            Some(t) => dec_users_at(b@, p as int, k as nat) == Some((users_views(t.0@), t.1 as int))
                && t.1 <= b@.len(),
            None => dec_users_at(b@, p as int, k as nat) is None,
        },
{
    let mut acc: Vec<CodeUser> = Vec::new();
    let mut pos: usize = p;
    let mut done: u64 = 0;
    while done < k
        invariant
            p <= pos <= b@.len(),
            done <= k,
            ({
                let tail = dec_users_at(b@, pos as int, (k - done) as nat);
                let whole = dec_users_at(b@, p as int, k as nat);
                match tail {
                    Some(t) => whole == Some((users_views(acc@) + t.0, t.1)),
                    None => whole is None,
                }
            }),
        decreases k - done,
    {
        let ghost rem = (k - done) as nat;
        match read_user_at(b, pos) {
            None => {
                assert(dec_users_at(b@, pos as int, rem) is None);
                return None;
            },
            Some((u, q)) => {
                proof {
                    let tail2 = dec_users_at(b@, q as int, (rem - 1) as nat);
                    if tail2 is Some {
                        let us = tail2.unwrap().0;
                        let e = tail2.unwrap().1;
                        assert(dec_users_at(b@, pos as int, rem) == Some((seq![u@] + us, e)));
                        assert(users_views(acc@.push(u)) =~= users_views(acc@).push(u@));
                        assert(users_views(acc@) + (seq![u@] + us) =~= users_views(acc@.push(u))
                            + us);
                    } else {
                        assert(dec_users_at(b@, pos as int, rem) is None);
                    }
                }
                acc.push(u);
                pos = q;
                done = done + 1;
            },
        }
    }
    assert(users_views(acc@) + Seq::<CodeUserV>::empty() =~= users_views(acc@));
    Some((acc, pos))
}

/// Participant identifiers repeat somewhere in `v`.
fn has_dup_uid(v: &Vec<CodeUser>) -> (d: bool)
    ensures
        d == !unique_uids(users_views(v@)),
{
    let ghost vs = users_views(v@);
    let n = v.len();
    let mut i: usize = 0;
    while i < n
        invariant
            n == v@.len(),
            vs == users_views(v@),
            0 <= i <= n,
            forall|a: int, c: int| 0 <= a < c < v@.len() && a < i ==> vs[a].telegram_id != vs[
                c
            ].telegram_id,
        decreases n - i,
    {
        let mut j: usize = i + 1;
        while j < n
            invariant
                n == v@.len(),
                vs == users_views(v@),
                0 <= i < j <= n,
                forall|c: int| i < c < j ==> vs[i as int].telegram_id != vs[c].telegram_id,
            decreases n - j,
        {
            if v[i].telegram_id == v[j].telegram_id {
                assert(vs[i as int].telegram_id == vs[j as int].telegram_id);
                return true;
            }
            j += 1;
        }
        i += 1;
    }
    false
}

/// Deserialize a roster value; nothing when the bytes do not have the shape
/// of a serialized roster.
pub fn decode_roster(b: &Vec<u8>) -> (r: Option<Vec<CodeUser>>)
    ensures
        match r {
            Some(v) => dec_roster(b@) == Some(users_views(v@)),
            None => dec_roster(b@) is None,
        },
{
    match read_u64_at(b, 0) {
        None => None,
        Some((n, p)) => match read_users_at(b, p, n) {
            None => None,
            Some((v, q)) => {
                if q != b.len() {
                    return None;
                }
                if has_dup_uid(&v) {
                    return None;
                }
                Some(v)
            },
        },
    }
}

/// Read one logged message at `p`.
fn read_msg_at(b: &Vec<u8>, p: usize) -> (r: Option<(ChatMessage, usize)>)
    requires
        p <= b@.len(),
    ensures
        match r {
            Some(t) => dec_msg_at(b@, p as int) == Some((t.0@, t.1 as int)) && p < t.1 <= b@.len(),
            None => dec_msg_at(b@, p as int) is None,
        },
{
    match read_i32_at(b, p) {
        None => None,
        Some((id, p1)) => match read_i32_at(b, p1) {
            None => None,
            Some((from, p2)) => match read_str_at(b, p2) {
                None => None,
                Some((text, p3)) => Some((ChatMessage { id, text, from: UserId(from) }, p3)),
            },
        },
    }
}

/// Read `k` logged messages in sequence starting at `p`.
fn read_msgs_at(b: &Vec<u8>, p: usize, k: u64) -> (r: Option<(Vec<ChatMessage>, usize)>)
    requires
        p <= b@.len(),
    ensures
        match r {
            Some(t) => dec_msgs_at(b@, p as int, k as nat) == Some((msgs_views(t.0@), t.1 as int))
                && t.1 <= b@.len(),
            None => dec_msgs_at(b@, p as int, k as nat) is None,
        },
{
    let mut acc: Vec<ChatMessage> = Vec::new();
    let mut pos: usize = p;
    let mut done: u64 = 0;
    while done < k
        invariant
            p <= pos <= b@.len(),
            done <= k,
            ({
                let tail = dec_msgs_at(b@, pos as int, (k - done) as nat);
                let whole = dec_msgs_at(b@, p as int, k as nat);
                match tail {
                    Some(t) => whole == Some((msgs_views(acc@) + t.0, t.1)),
                    None => whole is None,
                }
            }),
        decreases k - done,
    {
        let ghost rem = (k - done) as nat;
        match read_msg_at(b, pos) {
            None => {
                assert(dec_msgs_at(b@, pos as int, rem) is None);
                return None;
            },
            Some((m, q)) => {
                proof {
                    let tail2 = dec_msgs_at(b@, q as int, (rem - 1) as nat);
                    if tail2 is Some {
                        let ms = tail2.unwrap().0;
                        let e = tail2.unwrap().1;
                        assert(dec_msgs_at(b@, pos as int, rem) == Some((seq![m@] + ms, e)));
                        assert(msgs_views(acc@.push(m)) =~= msgs_views(acc@).push(m@));
                        assert(msgs_views(acc@) + (seq![m@] + ms) =~= msgs_views(acc@.push(m))
                            + ms);
                    } else {
                        assert(dec_msgs_at(b@, pos as int, rem) is None);
                    }
                }
                acc.push(m);
                pos = q;
                done = done + 1;
            },
        }
    }
    assert(msgs_views(acc@) + Seq::<ChatMessageV>::empty() =~= msgs_views(acc@));
    Some((acc, pos))
}

// ---------------------------------------------------------------------------
// Round trip: decoding an encoded aggregate yields exactly the aggregate.
// ---------------------------------------------------------------------------

/// A subrange known to be a concatenation splits into its two parts.
proof fn lemma_subrange_split(b: Seq<u8>, p: int, x: Seq<u8>, y: Seq<u8>)
    requires
        0 <= p,
        p + x.len() + y.len() <= b.len(),
        b.subrange(p, p + x.len() + y.len()) == x + y,
    ensures
        b.subrange(p, p + x.len() as int) == x,
        b.subrange(p + x.len() as int, p + x.len() + y.len()) == y,
{
    assert(b.subrange(p, p + x.len() as int) =~= x);
    assert forall|k: int| 0 <= k < y.len() implies b.subrange(
        p + x.len() as int,
        p + x.len() + y.len(),
    )[k] == y[k] by {
        assert((x + y)[x.len() + k] == y[k]);
        assert(b.subrange(p, p + x.len() + y.len())[x.len() + k] == (x + y)[x.len() + k]);
    }
    assert(b.subrange(p + x.len() as int, p + x.len() + y.len()) =~= y);
}

/// An embedded 64-bit encoding decodes to the value it encodes.
proof fn lemma_u64_rt(b: Seq<u8>, p: int, x: u64)
    requires
        0 <= p,
        p + 8 <= b.len(),
        b.subrange(p, p + 8) == spec_u64_to_le_bytes(x),
    ensures
        dec_u64_at(b, p) == Some((x, p + 8)),
{
    lemma_auto_spec_u64_to_from_le_bytes();
}

/// An embedded 32-bit encoding decodes to the value it encodes.
proof fn lemma_i32_rt(b: Seq<u8>, p: int, v: i32)
    requires
        0 <= p,
        p + 4 <= b.len(),
        b.subrange(p, p + 4) == enc_i32(v),
    ensures
        dec_i32_at(b, p) == Some((v, p + 4)),
{
    lemma_auto_spec_u32_to_from_le_bytes();
    assert(spec_u32_to_le_bytes(v as u32).len() == 4);
    assert(spec_u32_from_le_bytes(spec_u32_to_le_bytes(v as u32)) == v as u32);
    lemma_i32_cast(v);
}

/// An embedded string encoding decodes to the string it encodes.
proof fn lemma_str_rt(b: Seq<u8>, p: int, s: Seq<char>)
    requires
        str_fits(s),
        0 <= p,
        p + enc_str(s).len() <= b.len(),
        b.subrange(p, p + enc_str(s).len() as int) == enc_str(s),
    ensures
        dec_str_at(b, p) == Some((s, p + enc_str(s).len() as int)),
{
    let bytes = encode_utf8(s);
    let lenb = spec_u64_to_le_bytes(bytes.len() as u64);
    lemma_auto_spec_u64_to_from_le_bytes();
    assert(enc_str(s).len() == 8 + bytes.len());
    lemma_subrange_split(b, p, lenb, bytes);
    lemma_u64_rt(b, p, bytes.len() as u64);
    assert((bytes.len() as u64) as int == bytes.len() as int);
    encode_utf8_valid_utf8(s);
    encode_utf8_decode_utf8(s);
}

/// An embedded optional-string encoding decodes to what it encodes.
proof fn lemma_opt_str_rt(b: Seq<u8>, p: int, o: Option<Seq<char>>)
    requires
        match o {
            Some(s) => str_fits(s),
            None => true,
        },
        0 <= p,
        p + enc_opt_str(o).len() <= b.len(),
        b.subrange(p, p + enc_opt_str(o).len() as int) == enc_opt_str(o),
    ensures
        dec_opt_str_at(b, p) == Some((o, p + enc_opt_str(o).len() as int)),
{
    match o {
        None => {
            assert(b[p] == enc_opt_str(o)[0]);
            assert(enc_opt_str(o)[0] == 0u8);
        },
        Some(s) => {
            lemma_subrange_split(b, p, seq![1u8], enc_str(s));
            assert(b[p] == seq![1u8][0]);
            lemma_str_rt(b, p + 1, s);
        },
    }
}

/// An embedded participant-record encoding decodes to the record it encodes.
proof fn lemma_user_rt(b: Seq<u8>, p: int, u: CodeUserV)
    requires
        user_fits(u),
        0 <= p,
        p + enc_user(u).len() <= b.len(),
        b.subrange(p, p + enc_user(u).len() as int) == enc_user(u),
    ensures
        dec_user_at(b, p) == Some((u, p + enc_user(u).len() as int)),
{
    lemma_auto_spec_u32_to_from_le_bytes();
    let a = enc_opt_str(u.username);
    let c = enc_str(u.firstname);
    let d = enc_i32(u.telegram_id.0);
    let e = enc_str(u.codewars_name);
    assert(d.len() == 4);
    assert(enc_user(u) == ((a + c) + d) + e);
    assert(((a + c) + d) + e =~= (a + c) + (d + e));
    assert((a + c) + (d + e) =~= a + (c + (d + e)));
    lemma_subrange_split(b, p, a, c + (d + e));
    lemma_subrange_split(b, p + a.len(), c, d + e);
    lemma_subrange_split(b, p + a.len() + c.len(), d, e);
    lemma_opt_str_rt(b, p, u.username);
    lemma_str_rt(b, p + a.len(), u.firstname);
    lemma_i32_rt(b, p + a.len() + c.len(), u.telegram_id.0);
    lemma_str_rt(b, p + a.len() + c.len() + d.len(), u.codewars_name);
    assert(UserId(u.telegram_id.0) == u.telegram_id);
    assert(dec_user_at(b, p) == Some((u, p + enc_user(u).len() as int)));
}

/// An embedded record-sequence encoding decodes to the records it encodes.
proof fn lemma_users_rt(b: Seq<u8>, p: int, us: Seq<CodeUserV>)
    requires
        forall|i: int| 0 <= i < us.len() ==> #[trigger] user_fits(us[i]),
        0 <= p,
        p + enc_users(us).len() <= b.len(),
        b.subrange(p, p + enc_users(us).len() as int) == enc_users(us),
    ensures
        dec_users_at(b, p, us.len() as nat) == Some((us, p + enc_users(us).len() as int)),
    decreases us.len(),
{
    if us.len() == 0 {
        assert(dec_users_at(b, p, 0) == Some((Seq::<CodeUserV>::empty(), p)));
        assert(us =~= Seq::<CodeUserV>::empty());
    } else {
        let h = enc_user(us[0]);
        let t = enc_users(us.drop_first());
        assert(enc_users(us) == h + t);
        lemma_subrange_split(b, p, h, t);
        assert(user_fits(us[0]));
        lemma_user_rt(b, p, us[0]);
        assert(forall|i: int|
            0 <= i < us.drop_first().len() ==> #[trigger] user_fits(us.drop_first()[i]));
        lemma_users_rt(b, p + h.len(), us.drop_first());
        assert(seq![us[0]] + us.drop_first() =~= us);
    }
}

/// An embedded message encoding decodes to the message it encodes.
proof fn lemma_msg_rt(b: Seq<u8>, p: int, m: ChatMessageV)
    requires
        msg_fits(m),
        0 <= p,
        p + enc_msg(m).len() <= b.len(),
        b.subrange(p, p + enc_msg(m).len() as int) == enc_msg(m),
    ensures
        dec_msg_at(b, p) == Some((m, p + enc_msg(m).len() as int)),
{
    lemma_auto_spec_u32_to_from_le_bytes();
    let a = enc_i32(m.id);
    let c = enc_i32(m.from.0);
    let d = enc_str(m.text);
    assert(a.len() == 4 && c.len() == 4);
    assert(enc_msg(m) == (a + c) + d);
    assert((a + c) + d =~= a + (c + d));
    lemma_subrange_split(b, p, a, c + d);
    lemma_subrange_split(b, p + a.len(), c, d);
    lemma_i32_rt(b, p, m.id);
    lemma_i32_rt(b, p + a.len(), m.from.0);
    lemma_str_rt(b, p + a.len() + c.len(), m.text);
    assert(UserId(m.from.0) == m.from);
    assert(dec_msg_at(b, p) == Some((m, p + enc_msg(m).len() as int)));
}

/// An embedded message-sequence encoding decodes to the messages it encodes.
proof fn lemma_msgs_rt(b: Seq<u8>, p: int, ms: Seq<ChatMessageV>)
    requires
        forall|i: int| 0 <= i < ms.len() ==> #[trigger] msg_fits(ms[i]),
        0 <= p,
        p + enc_msgs(ms).len() <= b.len(),
        b.subrange(p, p + enc_msgs(ms).len() as int) == enc_msgs(ms),
    ensures
        dec_msgs_at(b, p, ms.len() as nat) == Some((ms, p + enc_msgs(ms).len() as int)),
    decreases ms.len(),
{
    if ms.len() == 0 {
        assert(dec_msgs_at(b, p, 0) == Some((Seq::<ChatMessageV>::empty(), p)));
        assert(ms =~= Seq::<ChatMessageV>::empty());
    } else {
        let h = enc_msg(ms[0]);
        let t = enc_msgs(ms.drop_first());
        assert(enc_msgs(ms) == h + t);
        lemma_subrange_split(b, p, h, t);
        assert(msg_fits(ms[0]));
        lemma_msg_rt(b, p, ms[0]);
        assert(forall|i: int|
            0 <= i < ms.drop_first().len() ==> #[trigger] msg_fits(ms.drop_first()[i]));
        lemma_msgs_rt(b, p + h.len(), ms.drop_first());
        assert(seq![ms[0]] + ms.drop_first() =~= ms);
    }
}

/// Round trip for rosters: a serialized roster deserializes to exactly the
/// roster that was serialized, never to a corrupted or partial value.
pub proof fn lemma_roster_round_trip(ros: Seq<CodeUserV>)
    requires
        roster_fits(ros),
        unique_uids(ros),
    ensures
        dec_roster(enc_roster(ros)) == Some(ros),
{
    let b = enc_roster(ros);
    let count = spec_u64_to_le_bytes(ros.len() as u64);
    lemma_auto_spec_u64_to_from_le_bytes();
    assert(b.subrange(0, b.len() as int) =~= b);
    lemma_subrange_split(b, 0, count, enc_users(ros));
    lemma_u64_rt(b, 0, ros.len() as u64);
    assert((ros.len() as u64) as nat == ros.len());
    lemma_users_rt(b, 8, ros);
}

/// Round trip for message logs: a serialized log deserializes to exactly
/// the log that was serialized, never to a corrupted or partial value.
pub proof fn lemma_log_round_trip(log: Seq<ChatMessageV>)
    requires
        log_fits(log),
    ensures
        dec_log(enc_log(log)) == Some(log),
{
    let b = enc_log(log);
    let count = spec_u64_to_le_bytes(log.len() as u64);
    lemma_auto_spec_u64_to_from_le_bytes();
    assert(b.subrange(0, b.len() as int) =~= b);
    lemma_subrange_split(b, 0, count, enc_msgs(log));
    lemma_u64_rt(b, 0, log.len() as u64);
    assert((log.len() as u64) as nat == log.len());
    lemma_msgs_rt(b, 8, log);
}

/// Deserialize a message log value; nothing when the bytes do not have the
/// shape of a serialized log.
pub fn decode_log(b: &Vec<u8>) -> (r: Option<Vec<ChatMessage>>)
    ensures
        match r {
            Some(v) => dec_log(b@) == Some(msgs_views(v@)),
            None => dec_log(b@) is None,
        },
{
    match read_u64_at(b, 0) {
        None => None,
        Some((n, p)) => match read_msgs_at(b, p, n) {
            None => None,
            Some((v, q)) => {
                if q != b.len() {
                    return None;
                }
                Some(v)
            },
        },
    }
}

} // verus!
