//! The derived query over a message-log snapshot: the distinct kata names of
//! the logged solutions, in increasing lexicographic order.

use vstd::prelude::*;
use vstd::string::*;
use vstd::utf8::char_u32_cast;
use crate::message_parse::{is_qualifying, kata_name, kata_name_spec};
use crate::types::ChatMessage;

verus! {

/// Strict lexicographic order on character sequences, by code point; a
/// proper prefix comes before its extensions.
pub open spec fn lex_lt(a: Seq<char>, b: Seq<char>) -> bool
    decreases a.len(),
{
    if b.len() == 0 {
        false
    } else if a.len() == 0 {
        true
    } else if a[0] != b[0] {
        (a[0] as u32) < (b[0] as u32)
    } else {
        lex_lt(a.drop_first(), b.drop_first())
    }
}

/// The order never relates a sequence to itself.
proof fn lemma_lex_irrefl(a: Seq<char>)
    ensures
        !lex_lt(a, a),
    decreases a.len(),
{
    if a.len() > 0 {
        lemma_lex_irrefl(a.drop_first());
    }
}

/// Two sequences the order relates in neither direction are equal.
proof fn lemma_lex_connex(a: Seq<char>, b: Seq<char>)
    requires
        !lex_lt(a, b),
        !lex_lt(b, a),
    ensures
        a == b,
    decreases a.len(),
{
    if b.len() == 0 {
        assert(a.len() == 0);
        assert(a =~= b);
    } else if a.len() == 0 {
        assert(false);
    } else if a[0] != b[0] {
        let ua = a[0] as u32;
        let ub = b[0] as u32;
        if ua == ub {
            char_u32_cast(a[0], ua);
            char_u32_cast(b[0], ub);
            assert(false);
        } else {
            assert(lex_lt(a, b) || lex_lt(b, a));
            assert(false);
        }
    } else {
        assert(!lex_lt(a.drop_first(), b.drop_first()));
        assert(!lex_lt(b.drop_first(), a.drop_first()));
        lemma_lex_connex(a.drop_first(), b.drop_first());
        assert(a.drop_first() == b.drop_first());
        assert(a.drop_first().len() == b.drop_first().len());
        assert(a.len() == b.len());
        assert forall|i: int| 0 <= i < a.len() implies a[i] == b[i] by {
            if i > 0 {
                assert(a[i] == a.drop_first()[i - 1]);
                assert(b[i] == b.drop_first()[i - 1]);
                assert(a.drop_first()[i - 1] == b.drop_first()[i - 1]);
            }
        }
        assert(a =~= b);
    }
}

/// The order is transitive.
proof fn lemma_lex_trans(a: Seq<char>, b: Seq<char>, c: Seq<char>)
    requires
        lex_lt(a, b),
        lex_lt(b, c),
    ensures
        lex_lt(a, c),
    decreases a.len(),
{
    if a.len() == 0 {
    } else {
        let ua = a[0] as u32;
        let ub = b[0] as u32;
        let uc = c[0] as u32;
        if a[0] == b[0] && b[0] == c[0] {
            lemma_lex_trans(a.drop_first(), b.drop_first(), c.drop_first());
        } else {
            assert(ua < uc) by {
                if a[0] != b[0] {
                    assert(ua < ub);
                } else {
                    assert(ua == ub);
                }
                if b[0] != c[0] {
                    assert(ub < uc);
                } else {
                    assert(ub == uc);
                }
            }
            assert(a[0] != c[0]) by {
                if a[0] == c[0] {
                    assert(ua == uc);
                }
            }
        }
    }
}

/// Strictly increasing by `lex_lt` over the views of a string sequence.
pub open spec fn strictly_sorted(s: Seq<String>) -> bool {
    forall|a: int, c: int| 0 <= a < c < s.len() ==> lex_lt((#[trigger] s[a])@, (#[trigger] s[c])@)
}

/// A strictly sorted listing holds no name twice.
pub proof fn lemma_strictly_sorted_distinct(s: Seq<String>)
    requires
        strictly_sorted(s),
    ensures
        forall|a: int, c: int| 0 <= a < c < s.len() ==> (#[trigger] s[a])@ != (#[trigger] s[c])@,
{
    assert forall|a: int, c: int| 0 <= a < c < s.len() implies (#[trigger] s[a])@ != (
    #[trigger] s[c])@ by {
        if s[a]@ == s[c]@ {
            lemma_lex_irrefl(s[a]@);
        }
    }
}

/// Strict lexicographic comparison of two strings.
fn str_lt(a: &str, b: &str) -> (r: bool)
    ensures
        r == lex_lt(a@, b@),
{
    let la = a.unicode_len();
    let lb = b.unicode_len();
    let mut i: usize = 0;
    assert(a@.skip(0) =~= a@);
    assert(b@.skip(0) =~= b@);
    while i < la && i < lb
        invariant
            la == a@.len(),
            lb == b@.len(),
            0 <= i <= la,
            0 <= i <= lb,
            lex_lt(a@, b@) == lex_lt(a@.skip(i as int), b@.skip(i as int)),
        decreases la - i,
    {
        let ca = a.get_char(i);
        let cb = b.get_char(i);
        assert(a@.skip(i as int)[0] == ca && b@.skip(i as int)[0] == cb);
        if ca != cb {
            return (ca as u32) < (cb as u32);
        }
        proof {
            assert(a@.skip(i as int).drop_first() =~= a@.skip(i + 1));
            assert(b@.skip(i as int).drop_first() =~= b@.skip(i + 1));
        }
        i += 1;
    }
    if i < lb {
        assert(a@.skip(i as int).len() == 0);
        assert(b@.skip(i as int).len() > 0);
        true
    } else {
        assert(b@.skip(i as int).len() == 0);
        false
    }
}

/// The character sequence `v` is the view of some entry of `names`.
pub open spec fn listed(names: Seq<String>, v: Seq<char>) -> bool {
    exists|a: int| 0 <= a < names.len() && (#[trigger] names[a])@ == v
}

/// The character sequence `v` is the kata name of one of the first `upto`
/// messages of `msgs`.
pub open spec fn log_name(msgs: Seq<ChatMessage>, upto: int, v: Seq<char>) -> bool {
    exists|k: int| 0 <= k < upto && kata_name_spec((#[trigger] msgs[k])@.text) == v
}

/// A name among the first messages is among any longer prefix of them.
proof fn lemma_log_name_widen(msgs: Seq<ChatMessage>, m1: int, m2: int, v: Seq<char>)
    requires
        m1 <= m2,
        log_name(msgs, m1, v),
    ensures
        log_name(msgs, m2, v),
{
    let k = choose|k: int| 0 <= k < m1 && kata_name_spec((#[trigger] msgs[k])@.text) == v;
    assert(0 <= k < m2 && kata_name_spec(msgs[k]@.text) == v);
}

/// Insert a name into a strictly sorted listing, keeping it strictly sorted;
/// a name already present is not added again.
fn insert_name(out: &mut Vec<String>, name: String)
    requires
        strictly_sorted(old(out)@),
    ensures
        strictly_sorted(final(out)@),
        listed(final(out)@, name@),
        forall|v: Seq<char>| #[trigger] listed(final(out)@, v) ==> v == name@ || listed(
            old(out)@,
            v,
        ),
        forall|v: Seq<char>| #[trigger] listed(old(out)@, v) ==> listed(final(out)@, v),
{
    let mut j: usize = 0;
    while j < out.len() && str_lt(out[j].as_str(), name.as_str())
        invariant
            strictly_sorted(out@),
            out@ == old(out)@,
            0 <= j <= out@.len(),
            forall|k: int| 0 <= k < j ==> lex_lt((#[trigger] out@[k])@, name@),
        decreases out@.len() - j,
    {
        j += 1;
    }
    if j < out.len() && out[j] == name {
        proof {
            assert(out@[j as int]@ == name@);
            assert(listed(out@, name@));
            assert forall|v: Seq<char>| #[trigger] listed(out@, v) implies v == name@ || listed(
                old(out)@,
                v,
            ) by {}
        }
        return ;
    }
    proof {
        if j < out@.len() {
            if !lex_lt(name@, out@[j as int]@) {
                lemma_lex_connex(name@, out@[j as int]@);
            }
            assert(lex_lt(name@, out@[j as int]@));
        }
    }
    let ghost pre = out@;
    out.insert(j, name);
    proof {
        let cur = out@;
        assert(cur.len() == pre.len() + 1);
        assert(cur[j as int]@ == name@);
        assert(forall|k: int| 0 <= k < j ==> cur[k] == pre[k]);
        assert(forall|k: int| j < k < cur.len() ==> cur[k] == pre[k - 1]);
        assert forall|a: int, c: int| 0 <= a < c < cur.len() implies lex_lt(
            (#[trigger] cur[a])@,
            (#[trigger] cur[c])@,
        ) by {
            if c == j {
                assert(lex_lt(pre[a]@, name@));
            } else if a == j {
                assert(cur[c] == pre[c - 1]);
                if c - 1 == j {
                    assert(lex_lt(name@, pre[j as int]@));
                } else {
                    assert(lex_lt(pre[j as int]@, pre[c - 1]@));
                    lemma_lex_trans(name@, pre[j as int]@, pre[c - 1]@);
                }
            } else if a < j && c > j {
                assert(cur[a] == pre[a] && cur[c] == pre[c - 1]);
                if c - 1 == a {
                    assert(lex_lt(pre[a]@, name@));
                    if j < pre.len() {
                        lemma_lex_trans(pre[a]@, name@, pre[j as int]@);
                    }
                    assert(a < j);
                    assert(lex_lt(cur[a]@, cur[c]@));
                } else {
                    assert(lex_lt(pre[a]@, pre[c - 1]@));
                }
            }
        }
        assert(listed(cur, name@)) by {
            assert((cur[j as int])@ == name@);
        }
        assert forall|v: Seq<char>| #[trigger] listed(cur, v) implies v == name@ || listed(
            pre,
            v,
        ) by {
            let a = choose|a: int| 0 <= a < cur.len() && (#[trigger] cur[a])@ == v;
            if a < j {
                assert((pre[a])@ == v);
            } else if a > j {
                assert((pre[a - 1])@ == v);
            }
        }
        assert forall|v: Seq<char>| #[trigger] listed(pre, v) implies listed(cur, v) by {
            let a = choose|a: int| 0 <= a < pre.len() && (#[trigger] pre[a])@ == v;
            if a < j {
                assert((cur[a])@ == v);
            } else {
                assert((cur[a + 1])@ == v);
            }
        }
    }
}

/// The distinct kata names of a log snapshot, sorted lexicographically.
/// Every entry of a log holds qualifying text, since only classified
/// messages are ever appended; the precondition records that.
pub fn solved_katas(msgs: &Vec<ChatMessage>) -> (r: Vec<String>)
    requires
        forall|k: int| 0 <= k < msgs@.len() ==> is_qualifying((#[trigger] msgs@[k])@.text),
    ensures
        strictly_sorted(r@),
        forall|a: int| 0 <= a < r@.len() ==> log_name(msgs@, msgs@.len() as int, (#[trigger] r@[a])@),
        forall|k: int|
            0 <= k < msgs@.len() ==> listed(r@, kata_name_spec((#[trigger] msgs@[k])@.text)),
{
    let mut out: Vec<String> = Vec::new();
    let mut m: usize = 0;
    while m < msgs.len()
        invariant
            forall|k: int| 0 <= k < msgs@.len() ==> is_qualifying((#[trigger] msgs@[k])@.text),
            0 <= m <= msgs@.len(),
            strictly_sorted(out@),
            forall|a: int| 0 <= a < out@.len() ==> log_name(msgs@, m as int, (#[trigger] out@[a])@),
            forall|k: int|
                0 <= k < m ==> listed(out@, kata_name_spec((#[trigger] msgs@[k])@.text)),
        decreases msgs@.len() - m,
    {
        assert(is_qualifying(msgs@[m as int]@.text));
        let ghost pre = out@;
        let name = kata_name(msgs[m].text.as_str());
        assert(name@ == kata_name_spec(msgs@[m as int]@.text));
        insert_name(&mut out, name);
        proof {
            let cur = out@;
            assert forall|a: int| 0 <= a < cur.len() implies log_name(
                msgs@,
                m + 1,
                (#[trigger] cur[a])@,
            ) by {
                assert(listed(cur, cur[a]@));
                if cur[a]@ == kata_name_spec(msgs@[m as int]@.text) {
                    assert(log_name(msgs@, m + 1, cur[a]@)) by {
                        assert(kata_name_spec((msgs@[m as int])@.text) == cur[a]@);
                    }
                } else {
                    assert(listed(pre, cur[a]@));
                    let w = choose|w: int| 0 <= w < pre.len() && (#[trigger] pre[w])@ == cur[a]@;
                    assert(log_name(msgs@, m as int, pre[w]@));
                    lemma_log_name_widen(msgs@, m as int, m + 1, cur[a]@);
                }
            }
            assert forall|k: int| 0 <= k < m + 1 implies listed(
                cur,
                kata_name_spec((#[trigger] msgs@[k])@.text),
            ) by {
                if k < m {
                    assert(listed(pre, kata_name_spec(msgs@[k]@.text)));
                } else {
                    assert(listed(cur, name@));
                }
            }
        }
        m += 1;
    }
    out
}

} // verus!
