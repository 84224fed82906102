//! The text classification and name extraction pipeline.
//!
//! A message qualifies as a solution posting when it begins with one decimal
//! digit, followed by zero or more non-digit characters, followed by the
//! literal link marker `https://pastebin.com/`. The canonical kata name of a
//! qualifying message is what remains after stripping a leading rank token,
//! stripping the link marker together with everything after it, and trimming
//! surrounding whitespace.

use vstd::prelude::*;
use vstd::string::*;

verus! {

/// One ASCII decimal digit.
pub open spec fn is_digit_char(c: char) -> bool {
    0x30 <= (c as u32) && (c as u32) <= 0x39
}

/// The Unicode `White_Space` characters: the class the chat transport's text
/// uses for separators, and the class trimming removes.
pub open spec fn is_ws_char(c: char) -> bool {
    ||| (0x09 <= (c as u32) && (c as u32) <= 0x0D)
    ||| (c as u32) == 0x20
    ||| (c as u32) == 0x85
    ||| (c as u32) == 0xA0
    ||| (c as u32) == 0x1680
    ||| (0x2000 <= (c as u32) && (c as u32) <= 0x200A)
    ||| (c as u32) == 0x2028
    ||| (c as u32) == 0x2029
    ||| (c as u32) == 0x202F
    ||| (c as u32) == 0x205F
    ||| (c as u32) == 0x3000
}

/// The link marker that a solution posting must contain.
pub open spec fn link_marker() -> Seq<char> {
    "https://pastebin.com/"@
}

/// The letters of the rank token's optional suffix.
pub open spec fn kyu_marker() -> Seq<char> {
    "kyu"@
}

/// The link marker occurs in `s` starting at position `i`.
pub open spec fn link_at(s: Seq<char>, i: int) -> bool {
    &&& 0 <= i
    &&& i + link_marker().len() <= s.len()
    &&& s.subrange(i, i + link_marker().len() as int) == link_marker()
}

/// The classification rule: a single leading decimal digit, zero or more
/// non-digit characters, then the link marker.
pub open spec fn is_qualifying(s: Seq<char>) -> bool {
    &&& s.len() > 0
    &&& is_digit_char(s[0])
    &&& exists|i: int|
        1 <= i && #[trigger] link_at(s, i) && (forall|j: int| 1 <= j < i ==> !is_digit_char(s[j]))
}

/// The length of the maximal whitespace prefix of `s`.
pub open spec fn ws_prefix_len(s: Seq<char>) -> int
    decreases s.len(),
{
    if s.len() == 0 || !is_ws_char(s[0]) {
        0
    } else {
        1 + ws_prefix_len(s.drop_first())
    }
}

/// The length of the maximal whitespace suffix of `s`.
pub open spec fn ws_suffix_len(s: Seq<char>) -> int
    decreases s.len(),
{
    if s.len() == 0 || !is_ws_char(s[s.len() - 1]) {
        0
    } else {
        1 + ws_suffix_len(s.drop_last())
    }
}

/// `s` without its maximal whitespace prefix and suffix.
pub open spec fn trim_spec(s: Seq<char>) -> Seq<char> {
    let front = s.skip(ws_prefix_len(s));
    front.take(front.len() - ws_suffix_len(front))
}

/// How many characters the rank token at the start of `s` spans: a digit
/// followed either by optional whitespace and the letters `kyu`, or by
/// exactly one whitespace character. Zero when no such token starts `s`.
pub open spec fn rank_len(s: Seq<char>) -> int {
    if s.len() == 0 || !is_digit_char(s[0]) {
        0
    } else {
        let j = 1 + ws_prefix_len(s.drop_first());
        if j + kyu_marker().len() <= s.len() && s.subrange(j, j + kyu_marker().len() as int)
            == kyu_marker() {
            j + kyu_marker().len()
        } else if s.len() >= 2 && is_ws_char(s[1]) {
            2
        } else {
            0
        }
    }
}

/// Stage one of extraction: the leading rank token removed.
pub open spec fn strip_rank(s: Seq<char>) -> Seq<char> {
    s.skip(rank_len(s))
}

/// The first position at or after `k` where the link marker occurs, or
/// `s.len()` when it occurs nowhere at or after `k`.
pub open spec fn link_pos_from(s: Seq<char>, k: int) -> int
    decreases s.len() - k,
{
    if k < 0 || k >= s.len() {
        s.len() as int
    } else if link_at(s, k) {
        k
    } else {
        link_pos_from(s, k + 1)
    }
}

/// Stage two of extraction: everything from the first occurrence of the link
/// marker through the end removed.
pub open spec fn strip_link(s: Seq<char>) -> Seq<char> {
    s.take(link_pos_from(s, 0))
}

/// The canonical kata name of a message text: rank token stripped, link and
/// trailing content stripped, whitespace trimmed.
pub open spec fn kata_name_spec(s: Seq<char>) -> Seq<char> {
    trim_spec(strip_link(strip_rank(s)))
}

/// A maximal-whitespace-prefix argument pins down `ws_prefix_len`.
proof fn lemma_ws_prefix_char(s: Seq<char>, p: int)
    requires
        0 <= p <= s.len(),
        forall|k: int| 0 <= k < p ==> is_ws_char(#[trigger] s[k]),
        p < s.len() ==> !is_ws_char(s[p]),
    ensures
        ws_prefix_len(s) == p,
    decreases s.len(),
{
    if s.len() == 0 {
    } else if !is_ws_char(s[0]) {
        assert(p == 0);
    } else {
        assert(p != 0);
        let t = s.drop_first();
        assert(forall|k: int| 0 <= k < p - 1 ==> is_ws_char(#[trigger] t[k]));
        lemma_ws_prefix_char(t, p - 1);
    }
}

/// A maximal-whitespace-suffix argument pins down `ws_suffix_len`.
proof fn lemma_ws_suffix_char(s: Seq<char>, q: int)
    requires
        0 <= q <= s.len(),
        forall|k: int| s.len() - q <= k < s.len() ==> is_ws_char(#[trigger] s[k]),
        q < s.len() ==> !is_ws_char(s[s.len() - q - 1]),
    ensures
        ws_suffix_len(s) == q,
    decreases s.len(),
{
    if s.len() == 0 {
    } else if !is_ws_char(s[s.len() - 1]) {
        assert(q == 0);
    } else {
        assert(q != 0);
        let t = s.drop_last();
        assert(forall|k: int| t.len() - (q - 1) <= k < t.len() ==> is_ws_char(#[trigger] t[k]));
        lemma_ws_suffix_char(t, q - 1);
    }
}

/// `link_pos_from` returns the first occurrence, and its basic bounds.
proof fn lemma_link_pos_from(s: Seq<char>, k: int)
    requires
        0 <= k <= s.len(),
    ensures
        k <= link_pos_from(s, k) <= s.len(),
        link_pos_from(s, k) < s.len() ==> link_at(s, link_pos_from(s, k)),
        forall|j: int| k <= j < link_pos_from(s, k) ==> !link_at(s, j),
    decreases s.len() - k,
{
    if k < s.len() && !link_at(s, k) {
        lemma_link_pos_from(s, k + 1);
    }
}

/// A first-occurrence argument pins down `link_pos_from(s, 0)`.
proof fn lemma_link_pos_char(s: Seq<char>, p: int)
    requires
        0 <= p <= s.len(),
        p < s.len() ==> link_at(s, p),
        forall|j: int| 0 <= j < p ==> !link_at(s, j),
    ensures
        link_pos_from(s, 0) == p,
{
    lemma_link_pos_from(s, 0);
    let q = link_pos_from(s, 0);
    if q < p {
        assert(link_at(s, q));
        assert(false);
    } else if p < q {
        assert(link_at(s, p));
        assert(false);
    }
}

/// Occurrences of the link marker shift with a prefix drop.
proof fn lemma_link_at_shift(s: Seq<char>, a: int, i: int)
    requires
        0 <= a <= s.len(),
        0 <= i,
    ensures
        link_at(s.skip(a), i) == link_at(s, a + i),
{
    let t = s.skip(a);
    if i + link_marker().len() <= t.len() {
        assert(t.subrange(i, i + link_marker().len() as int) =~= s.subrange(
            a + i,
            a + i + link_marker().len() as int,
        ));
    }
}

/// One decimal digit, as executable code.
fn char_is_digit(c: char) -> (b: bool)
    ensures
        b == is_digit_char(c),
{
    let u = c as u32;
    0x30 <= u && u <= 0x39
}

/// One Unicode `White_Space` character, as executable code.
fn char_is_ws(c: char) -> (b: bool)
    ensures
        b == is_ws_char(c),
{
    let u = c as u32;
    (0x09 <= u && u <= 0x0D) || u == 0x20 || u == 0x85 || u == 0xA0 || u == 0x1680 || (0x2000 <= u
        && u <= 0x200A) || u == 0x2028 || u == 0x2029 || u == 0x202F || u == 0x205F || u == 0x3000
}

/// Whether the link marker occurs in `msg` at character position `i`.
fn link_match_at(msg: &str, n: usize, i: usize) -> (b: bool)
    requires
        n == msg@.len(),
        i <= n,
    ensures
        b == link_at(msg@, i as int),
{
    let lm = "https://pastebin.com/";
    proof {
        reveal_strlit("https://pastebin.com/");
    }
    if n - i < 21 {
        return false;
    }
    let mut j: usize = 0;
    while j < 21
        invariant
            n == msg@.len(),
            i + 21 <= n,
            0 <= j <= 21,
            lm@ == link_marker(),
            lm@.len() == 21,
            forall|k: int| 0 <= k < j ==> msg@[i + k] == link_marker()[k],
        decreases 21 - j,
    {
        if msg.get_char(i + j) != lm.get_char(j) {
            assert(msg@.subrange(i as int, i + 21) != link_marker()) by {
                assert(msg@.subrange(i as int, i + 21)[j as int] != link_marker()[j as int]);
            }
            return false;
        }
        j += 1;
    }
    assert(msg@.subrange(i as int, i + 21) =~= link_marker());
    true
}

/// Decides whether a text blob is a qualifying solution posting. Pure and
/// total: any string is accepted as input.
pub fn is_codewars_solution(msg: &str) -> (b: bool)
    ensures
        b == is_qualifying(msg@),
{
    let n = msg.unicode_len();
    if n == 0 {
        return false;
    }
    if !char_is_digit(msg.get_char(0)) {
        return false;
    }
    let mut i: usize = 1;
    while i < n
        invariant
            n == msg@.len(),
            1 <= i <= n,
            is_digit_char(msg@[0]),
            forall|j: int| 1 <= j < i ==> !is_digit_char(#[trigger] msg@[j]),
            forall|j: int| 1 <= j < i ==> !(#[trigger] link_at(msg@, j)),
        decreases n - i,
    {
        if link_match_at(msg, n, i) {
            assert(is_qualifying(msg@)) by {
                assert(1 <= i as int && link_at(msg@, i as int) && (forall|j: int|
                    1 <= j < i as int ==> !is_digit_char(msg@[j])));
            }
            return true;
        }
        if char_is_digit(msg.get_char(i)) {
            assert(!is_qualifying(msg@)) by {
                assert forall|w: int|
                    1 <= w && #[trigger] link_at(msg@, w) implies !(forall|j: int|
                    1 <= j < w ==> !is_digit_char(msg@[j])) by {
                    if w <= i {
                        assert(!link_at(msg@, w));
                        assert(false);
                    } else {
                        assert(is_digit_char(msg@[i as int]));
                    }
                }
            }
            return false;
        }
        i += 1;
    }
    assert(!is_qualifying(msg@)) by {
        assert forall|w: int| 1 <= w implies !link_at(msg@, w) by {
            if w < n {
                assert(!link_at(msg@, w));
            } else {
                reveal_strlit("https://pastebin.com/");
                assert(link_marker().len() == 21);
            }
        }
    }
    false
}

/// Derives the canonical kata name from a qualifying solution posting.
/// Calling it on non-qualifying text is a caller bug; the precondition rules
/// such calls out, so this function has no failure mode of its own.
pub fn kata_name(msg: &str) -> (r: String)
    requires
        is_qualifying(msg@),
    ensures
        r@ == kata_name_spec(msg@),
{
    let ghost s = msg@;
    let n = msg.unicode_len();
    proof {
        reveal_strlit("kyu");
    }

    // Stage one: span of the rank token.
    let start = rank_token_end(msg, n);
    assert(strip_rank(s) == s.skip(start as int));

    // Stage two: first occurrence of the link marker at or after `start`.
    let end = find_link_from(msg, n, start);
    proof {
        let stripped = s.skip(start as int);
        assert forall|j: int| 0 <= j < end - start implies !link_at(stripped, j) by {
            lemma_link_at_shift(s, start as int, j);
        }
        if end < n {
            lemma_link_at_shift(s, start as int, end - start);
        } else {
            reveal_strlit("https://pastebin.com/");
            assert(link_marker().len() == 21);
        }
        lemma_link_pos_char(stripped, end - start);
        assert(strip_link(stripped) =~= s.subrange(start as int, end as int));
    }

    // Stage three: trim whitespace inside the remaining span.
    let mut a = start;
    while a < end && char_is_ws(msg.get_char(a))
        invariant
            n == msg@.len(),
            end <= n,
            start <= a <= end,
            forall|k: int| start <= k < a ==> is_ws_char(#[trigger] msg@[k]),
        decreases end - a,
    {
        a += 1;
    }
    let mut b = end;
    while b > a && char_is_ws(msg.get_char(b - 1))
        invariant
            n == msg@.len(),
            end <= n,
            a <= b <= end,
            forall|k: int| b <= k < end ==> is_ws_char(#[trigger] msg@[k]),
        decreases b,
    {
        b -= 1;
    }
    proof {
        let u = s.subrange(start as int, end as int);
        assert(forall|k: int| 0 <= k < a - start ==> is_ws_char(#[trigger] u[k]));
        lemma_ws_prefix_char(u, a - start);
        let front = u.skip(a - start);
        assert(front =~= s.subrange(a as int, end as int));
        assert(forall|k: int| front.len() - (end - b) <= k < front.len() ==> is_ws_char(
            #[trigger] front[k],
        ));
        lemma_ws_suffix_char(front, end - b);
        assert(trim_spec(u) =~= s.subrange(a as int, b as int));
    }
    let picked = msg.substring_char(a, b);
    picked.to_owned()
}

/// The first character position at or after `start` where the link marker
/// occurs, or `n` when it occurs nowhere at or after `start`.
fn find_link_from(msg: &str, n: usize, start: usize) -> (end: usize)
    requires
        n == msg@.len(),
        start <= n,
    ensures
        start <= end <= n,
        end < n ==> link_at(msg@, end as int),
        forall|j: int| start <= j < end ==> !(#[trigger] link_at(msg@, j)),
{
    let mut end: usize = start;
    while end < n
        invariant
            n == msg@.len(),
            start <= end <= n,
            forall|j: int| start <= j < end ==> !(#[trigger] link_at(msg@, j)),
        decreases n - end,
    {
        if link_match_at(msg, n, end) {
            return end;
        }
        end += 1;
    }
    end
}

/// The character position right after the rank token of a qualifying text.
fn rank_token_end(msg: &str, n: usize) -> (start: usize)
    requires
        n == msg@.len(),
        n > 0,
        is_digit_char(msg@[0]),
    ensures
        start <= n,
        start as int == rank_len(msg@),
{
    let ghost s = msg@;
    proof {
        reveal_strlit("kyu");
    }
    let mut j: usize = 1;
    while j < n && char_is_ws(msg.get_char(j))
        invariant
            n == msg@.len(),
            1 <= j <= n,
            forall|k: int| 1 <= k < j ==> is_ws_char(#[trigger] msg@[k]),
        decreases n - j,
    {
        j += 1;
    }
    proof {
        let t = s.drop_first();
        assert(forall|k: int| 0 <= k < j - 1 ==> is_ws_char(#[trigger] t[k]));
        lemma_ws_prefix_char(t, j - 1);
        assert(1 + ws_prefix_len(s.drop_first()) == j);
    }
    if n - j >= 3 && msg.get_char(j) == 'k' && msg.get_char(j + 1) == 'y' && msg.get_char(j + 2)
        == 'u' {
        assert(s.subrange(j as int, j + 3) =~= kyu_marker());
        j + 3
    } else {
        assert(j + 3 <= n ==> s.subrange(j as int, j + 3) != kyu_marker()) by {
            if j + 3 <= n && s.subrange(j as int, j + 3) == kyu_marker() {
                assert(s.subrange(j as int, j + 3)[0] == 'k');
                assert(s.subrange(j as int, j + 3)[1] == 'y');
                assert(s.subrange(j as int, j + 3)[2] == 'u');
            }
        }
        if n >= 2 && char_is_ws(msg.get_char(1)) {
            2
        } else {
            0
        }
    }
}

} // verus!
