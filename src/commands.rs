//! Decisions around the conversation: how a chat is named as a scope, who may
//! delete the bot's messages, and what to tidy up once a notice was sent.
use vstd::prelude::*;
use vstd::string::{StrSliceExecFns, StringExecFns};

verus! {

/// The user name the bot answers to.
pub open spec fn bot_name() -> Seq<char> {
    seq!['n', 'o', '_', 'd', 'u', 'p', '_', 'b', 'o', 't']
}

/// Supergroup ids are written with a `-100` in front; the scope, and the
/// chat part of a private message link, leave it out.
pub open spec fn scope_of_chat(id: Seq<char>) -> Seq<char> {
    if id.len() >= 4 && id.subrange(0, 4) == seq!['-', '1', '0', '0'] {
        id.subrange(4, id.len() as int)
    } else {
        id
    }
}

/// The scope of the chat whose id reads `id`.
pub fn get_chat_id(id: &str) -> (r: String)
    ensures
        r@ == scope_of_chat(id@),
{
    let n = id.unicode_len();
    if n >= 4 && id.get_char(0) == '-' && id.get_char(1) == '1' && id.get_char(2) == '0'
        && id.get_char(3) == '0' {
        assert(id@.subrange(0, 4) =~= seq!['-', '1', '0', '0']);
        String::from_str(id.substring_char(4, n))
    } else {
        proof {
            if id@.len() >= 4 && id@.subrange(0, 4) == seq!['-', '1', '0', '0'] {
                assert(id@[0] == id@.subrange(0, 4)[0]);
                assert(id@[1] == id@.subrange(0, 4)[1]);
                assert(id@[2] == id@.subrange(0, 4)[2]);
                assert(id@[3] == id@.subrange(0, 4)[3]);
            }
        }
        String::from_str(id)
    }
}

/// Only an administrator may have the bot delete a message.
pub fn allows_delete(admins: &Vec<i64>, user: Option<i64>) -> (r: bool)
    ensures
        r == (user is Some && admins@.contains(user->0)),
{
    match user {
        None => false,
        Some(u) => {
            let mut found = false;
            let mut i: usize = 0;
            while i < admins.len()
                invariant
                    i <= admins@.len(),
                    found == (exists|j: int| 0 <= j < i && admins@[j] == u),
                decreases admins@.len() - i,
            {
                if admins[i] == u {
                    found = true;
                }
                i = i + 1;
            }
            found
        },
    }
}

/// Whether a message replies to one of the bot's: the replied-to message's
/// author has the bot's user name.
pub fn reply_to_bot(replied_author: Option<&String>) -> (r: bool)
    ensures
        r == (replied_author matches Some(a) && a@ == bot_name()),
{
    match replied_author {
        None => false,
        Some(a) => {
            let b = String::from_str("no_dup_bot");
            proof {
                reveal_strlit("no_dup_bot");
                assert("no_dup_bot"@ =~= bot_name());
            }
            a.eq(&b)
        },
    }
}

/// What to delete once the bot has probed whether the message it answered
/// still exists, by forwarding it.
#[derive(Clone, Copy, Debug, PartialEq, Eq, Structural)]
pub enum Cleanup {
    /// The message is still there: delete the probe, keep the notice.
    DeleteProbe,
    /// The message is gone: delete the bot's notice too.
    DeleteNotice,
}

pub fn after_probe(forwarded: bool) -> (r: Cleanup)
    ensures
        forwarded ==> r == Cleanup::DeleteProbe,
        !forwarded ==> r == Cleanup::DeleteNotice,
{
    if forwarded {
        Cleanup::DeleteProbe
    } else {
        Cleanup::DeleteNotice
    }
}

pub open spec fn is_digit(c: char) -> bool {
    '0' <= c && c <= '9'
}

/// The value of a string of decimal digits.
pub open spec fn digits_value(s: Seq<char>) -> int
    decreases s.len(),
{
    if s.len() == 0 {
        0
    } else {
        10 * digits_value(s.drop_last()) + (s.last() as int - '0' as int)
    }
}

pub open spec fn all_digits(b: Seq<char>) -> bool {
    forall|i: int| 0 <= i < b.len() ==> is_digit(#[trigger] b[i])
}

/// The length of the sign in front of a decimal integer: one for `+` or
/// `-`, else none.
pub open spec fn sign_len(s: Seq<char>) -> int {
    if s.len() > 0 && (s[0] == '-' || s[0] == '+') {
        1
    } else {
        0
    }
}

/// A decimal integer as `str::parse::<i64>` reads one: an optional `+` or
/// `-`, then one or more digits, with a value that fits in `i64`.
pub open spec fn decimal_i64(s: Seq<char>) -> Option<i64> {
    let body = s.subrange(sign_len(s), s.len() as int);
    let v = if s.len() > 0 && s[0] == '-' {
        -digits_value(body)
    } else {
        digits_value(body)
    };
    if body.len() > 0 && all_digits(body) && i64::MIN <= v <= i64::MAX {
        Some(v as i64)
    } else {
        None
    }
}

proof fn lemma_digits_nonneg(s: Seq<char>)
    requires
        forall|i: int| 0 <= i < s.len() ==> is_digit(#[trigger] s[i]),
    ensures
        digits_value(s) >= 0,
    decreases s.len(),
{
    if s.len() > 0 {
        lemma_digits_nonneg(s.drop_last());
    }
}

/// Reads a decimal `i64`; `None` where `s` is not one.
pub fn parse_i64(s: &str) -> (r: Option<i64>)
    ensures
        r == decimal_i64(s@),
{
    let n = s.unicode_len();
    let mut start: usize = 0;
    let mut neg = false;
    if n > 0 {
        let c = s.get_char(0);
        if c == '-' || c == '+' {
            start = 1;
            neg = c == '-';
        }
    }
    let ghost body = s@.subrange(start as int, n as int);
    assert(start == sign_len(s@));
    if start >= n {
        assert(body.len() == 0);
        return None;
    }
    // 2^63: the largest magnitude that can still fit, as a negative number
    let limit: u64 = 9223372036854775808;
    let mut acc: u64 = 0;
    let mut over = false;
    let mut i: usize = start;
    let mut bad = false;
    while i < n && !bad
        invariant
            bad ==> decimal_i64(s@) is None,
            start == sign_len(s@),
            n == s@.len(),
            start <= i <= n,
            body == s@.subrange(start as int, n as int),
            !bad ==> forall|j: int| start <= j < i ==> is_digit(#[trigger] s@[j]),
            !bad && !over ==> acc == digits_value(s@.subrange(start as int, i as int)),
            !bad && over ==> digits_value(s@.subrange(start as int, i as int)) > limit,
            acc <= limit,
            limit == 9223372036854775808u64,
        decreases n - i,
    {
        let c = s.get_char(i);
        let ghost pre = s@.subrange(start as int, i as int);
        let ghost t = s@.subrange(start as int, i + 1);
        proof {
            assert(t.drop_last() =~= pre);
            lemma_digits_nonneg(pre);
        }
        if !('0' <= c && c <= '9') {
            proof {
                assert(!is_digit(body[i - start]));
                assert(!all_digits(body));
                assert(decimal_i64(s@) is None);
            }
            bad = true;
        } else {
        let d = (c as u32 - '0' as u32) as u64;
        assert(d as int == t.last() as int - '0' as int);
        assert(d <= 9);
        if !over {
            if acc > (limit - d) / 10 {
                proof {
                    assert(10 * acc + d > limit) by (nonlinear_arith)
                        requires
                            acc > (limit - d) / 10,
                            d <= 9,
                            limit == 9223372036854775808u64,
                    ;
                }
                over = true;
            } else {
                proof {
                    assert(10 * acc + d <= limit) by (nonlinear_arith)
                        requires
                            acc <= (limit - d) / 10,
                            d <= 9,
                            limit == 9223372036854775808u64,
                    ;
                }
                acc = acc * 10 + d;
            }
        }
        }
        i = i + 1;
    }
    if bad {
        return None;
    }
    proof {
        assert(s@.subrange(start as int, n as int) == body);
        assert forall|j: int| 0 <= j < body.len() implies is_digit(#[trigger] body[j]) by {
            assert(body[j] == s@[start + j]);
        }
        assert(all_digits(body));
    }
    if over {
        return None;
    }
    assert(acc == digits_value(body));
    assert(neg == (s@.len() > 0 && s@[0] == '-'));
    if neg {
        if acc == limit {
            Some(i64::MIN)
        } else {
            let v: i64 = -(acc as i64);
            Some(v)
        }
    } else {
        if acc == limit {
            None
        } else {
            Some(acc as i64)
        }
    }
}

/// The pieces of `s` between colons.
pub open spec fn colon_pieces(s: Seq<char>) -> Seq<Seq<char>>
    decreases s.len(),
{
    if s.len() == 0 {
        seq![Seq::empty()]
    } else {
        let p = colon_pieces(s.drop_last());
        if s.last() == ':' {
            p.push(Seq::empty())
        } else {
            p.update(p.len() - 1, p.last().push(s.last()))
        }
    }
}

/// An administrator id as written; zero where it does not read as one.
pub open spec fn admin_id(piece: Seq<char>) -> i64 {
    match decimal_i64(piece) {
        Some(v) => v,
        None => 0,
    }
}

/// The administrators named in a colon-separated list of user ids.
pub fn parse_admins(s: &str) -> (r: Vec<i64>)
    ensures
        r@ == colon_pieces(s@).map_values(|p: Seq<char>| admin_id(p)),
{
    let n = s.unicode_len();
    let mut out: Vec<i64> = Vec::new();
    let mut start: usize = 0;
    let mut i: usize = 0;
    while i < n
        invariant
            n == s@.len(),
            start <= i <= n,
            colon_pieces(s@.subrange(0, i as int)).len() == out@.len() + 1,
            forall|j: int|
                0 <= j < out@.len() ==> out@[j] == admin_id(
                    #[trigger] colon_pieces(s@.subrange(0, i as int))[j],
                ),
            colon_pieces(s@.subrange(0, i as int)).last() == s@.subrange(start as int, i as int),
        decreases n - i,
    {
        let c = s.get_char(i);
        let ghost before = colon_pieces(s@.subrange(0, i as int));
        let ghost t = s@.subrange(0, i + 1);
        proof {
            assert(t.drop_last() =~= s@.subrange(0, i as int));
            assert(t.last() == c);
        }
        if c == ':' {
            let piece = s.substring_char(start, i);
            let id = match parse_i64(piece) {
                Some(v) => v,
                None => 0,
            };
            out.push(id);
            start = i + 1;
            proof {
                assert(colon_pieces(t) == before.push(Seq::empty()));
                assert(s@.subrange(start as int, i + 1) =~= Seq::<char>::empty());
            }
        } else {
            proof {
                assert(colon_pieces(t) == before.update(before.len() - 1, before.last().push(c)));
                assert(s@.subrange(start as int, i + 1) =~= s@.subrange(start as int, i as int).push(c));
            }
        }
        i = i + 1;
    }
    let piece = s.substring_char(start, n);
    let id = match parse_i64(piece) {
        Some(v) => v,
        None => 0,
    };
    out.push(id);
    proof {
        assert(s@.subrange(0, n as int) =~= s@);
        let p = colon_pieces(s@);
        assert(out@ =~= p.map_values(|p: Seq<char>| admin_id(p)));
    }
    out
}

} // verus!
