//! User counters and leaderboards.
//!
//! A leaderboard repeatedly takes the row that ranks highest: the largest
//! remaining count, and among equal counts the label last in byte order (then
//! the first in scan order). It stops at the soft cap unless the next count
//! ties with the last one taken, and never goes beyond the hard cap.
use crate::config::Config;
use crate::keys::{scope_prefix, scope_prefix_bytes, user_key_bytes, StoreKind, UserKey};
use crate::records::{
    decode_info, decode_user, encode_user, lemma_user_round_trip, InfoModel, MessageInfo,
    TopUserValue, UserModel,
};
use crate::codec::{str_bytes, str_to_bytes};
use crate::store::{is_prefix_scan, lex_lt, pairs_view, MyDB, StoreError};
use vstd::prelude::*;

verus! {

/// The bytes of each label.
pub open spec fn label_views(v: Seq<Vec<u8>>) -> Seq<Seq<u8>> {
    v.map_values(|x: Vec<u8>| x@)
}

/// Row `a` ranks above row `b`: a larger count, or the same count and a
/// label later in byte order.
pub open spec fn above(a: (u64, usize), b: (u64, usize), labels: Seq<Seq<u8>>) -> bool {
    a.0 > b.0 || (a.0 == b.0 && lex_lt(labels[b.1 as int], labels[a.1 as int]))
}

/// The index of the first row of `s` that no later row ranks above.
pub open spec fn max_index(s: Seq<(u64, usize)>, labels: Seq<Seq<u8>>) -> int
    decreases s.len(),
{
    if s.len() <= 1 {
        0
    } else {
        let j = max_index(s.drop_last(), labels);
        if above(s.last(), s[j], labels) {
            s.len() - 1
        } else {
            j
        }
    }
}

/// Whether a row with count `c` is shown after `emitted` rows, the last of
/// which had count `last`.
pub open spec fn keeps(emitted: nat, c: u64, last: Option<u64>, max_len: usize, hard: usize) -> bool {
    emitted < hard && (emitted < max_len || last == Some(c))
}

/// The rows shown, as the tags of the (count, tag) pairs of `s`, given the
/// rows already shown.
pub open spec fn ranked(
    s: Seq<(u64, usize)>,
    labels: Seq<Seq<u8>>,
    max_len: usize,
    hard: usize,
    emitted: nat,
    last: Option<u64>,
) -> Seq<usize>
    decreases s.len(),
{
    if s.len() == 0 {
        Seq::empty()
    } else {
        let j = max_index(s, labels);
        let c = s[j].0;
        if 0 <= j < s.len() && keeps(emitted, c, last, max_len, hard) {
            seq![s[j].1] + ranked(s.remove(j), labels, max_len, hard, emitted + 1, Some(c))
        } else {
            Seq::empty()
        }
    }
}

/// Each count tagged with its position.
pub open spec fn tagged(counts: Seq<u64>) -> Seq<(u64, usize)> {
    Seq::new(counts.len(), |i: int| (counts[i], i as usize))
}

/// The positions, in leaderboard order, of the rows shown.
pub open spec fn leaderboard(
    counts: Seq<u64>,
    labels: Seq<Seq<u8>>,
    max_len: usize,
    hard: usize,
) -> Seq<usize> {
    ranked(tagged(counts), labels, max_len, hard, 0, None)
}

proof fn lemma_max_index_bounds(s: Seq<(u64, usize)>, labels: Seq<Seq<u8>>)
    ensures
        s.len() > 0 ==> 0 <= max_index(s, labels) < s.len(),
        forall|i: int| 0 <= i < s.len() ==> (#[trigger] s[i]).0 <= s[max_index(s, labels)].0,
    decreases s.len(),
{
    if s.len() > 1 {
        lemma_max_index_bounds(s.drop_last(), labels);
        assert forall|i: int| 0 <= i < s.len() implies (#[trigger] s[i]).0 <= s[max_index(
            s,
            labels,
        )].0 by {
            if i < s.len() - 1 {
                assert(s.drop_last()[i] == s[i]);
            }
        }
    }
}

/// A leaderboard never has more rows than the hard cap allows.
pub proof fn lemma_ranked_hard_cap(
    s: Seq<(u64, usize)>,
    labels: Seq<Seq<u8>>,
    max_len: usize,
    hard: usize,
    emitted: nat,
    last: Option<u64>,
)
    ensures
        emitted + ranked(s, labels, max_len, hard, emitted, last).len() <= if emitted <= hard {
            hard as int
        } else {
            emitted as int
        },
    decreases s.len(),
{
    if s.len() > 0 {
        let j = max_index(s, labels);
        lemma_max_index_bounds(s, labels);
        if keeps(emitted, s[j].0, last, max_len, hard) {
            lemma_ranked_hard_cap(s.remove(j), labels, max_len, hard, emitted + 1, Some(s[j].0));
        }
    }
}

/// Where the soft cap is reached and the next count ties with the last one
/// shown, that count is shown too, while the hard cap allows.
pub proof fn lemma_ranked_tie_extends(
    s: Seq<(u64, usize)>,
    labels: Seq<Seq<u8>>,
    max_len: usize,
    hard: usize,
    emitted: nat,
    c: u64,
)
    requires
        s.len() > 0,
        emitted < hard,
        s[max_index(s, labels)].0 == c,
    ensures
        ranked(s, labels, max_len, hard, emitted, Some(c)).len() > 0,
{
    lemma_max_index_bounds(s, labels);
}

/// Whether `a` comes before `b` in byte order.
fn bytes_lt(a: &Vec<u8>, b: &Vec<u8>) -> (r: bool)
    ensures
        r == lex_lt(a@, b@),
{
    let mut i: usize = 0;
    assert(a@.subrange(0, a@.len() as int) =~= a@);
    assert(b@.subrange(0, b@.len() as int) =~= b@);
    while i < a.len() && i < b.len() && a[i] == b[i]
        invariant
            i <= a@.len(),
            i <= b@.len(),
            lex_lt(a@, b@) == lex_lt(
                a@.subrange(i as int, a@.len() as int),
                b@.subrange(i as int, b@.len() as int),
            ),
        decreases a@.len() - i,
    {
        proof {
            let sa = a@.subrange(i as int, a@.len() as int);
            let sb = b@.subrange(i as int, b@.len() as int);
            assert(sa.drop_first() =~= a@.subrange(i + 1, a@.len() as int));
            assert(sb.drop_first() =~= b@.subrange(i + 1, b@.len() as int));
            assert(sa[0] == sb[0]);
        }
        i = i + 1;
    }
    let ghost sa = a@.subrange(i as int, a@.len() as int);
    let ghost sb = b@.subrange(i as int, b@.len() as int);
    if i == b.len() {
        assert(sb.len() == 0);
        false
    } else if i == a.len() {
        assert(sa.len() == 0 && sb.len() > 0);
        true
    } else {
        assert(sa[0] == a@[i as int] && sb[0] == b@[i as int]);
        a[i] < b[i]
    }
}

fn ranks_above(a: (u64, usize), b: (u64, usize), labels: &Vec<Vec<u8>>) -> (r: bool)
    requires
        a.1 < labels@.len(),
        b.1 < labels@.len(),
    ensures
        r == above(a, b, label_views(labels@)),
{
    if a.0 > b.0 {
        true
    } else if a.0 == b.0 {
        bytes_lt(&labels[b.1], &labels[a.1])
    } else {
        false
    }
}

/// The position of the first row that no later row ranks above.
fn first_max(s: &Vec<(u64, usize)>, labels: &Vec<Vec<u8>>) -> (r: usize)
    requires
        s@.len() > 0,
        forall|i: int| 0 <= i < s@.len() ==> (#[trigger] s@[i]).1 < labels@.len(),
    ensures
        r == max_index(s@, label_views(labels@)),
        r < s@.len(),
{
    let ghost lv = label_views(labels@);
    proof {
        lemma_max_index_bounds(s@, lv);
    }
    let mut best: usize = 0;
    let mut i: usize = 1;
    while i < s.len()
        invariant
            1 <= i <= s@.len(),
            lv == label_views(labels@),
            forall|k: int| 0 <= k < s@.len() ==> (#[trigger] s@[k]).1 < labels@.len(),
            best == max_index(s@.subrange(0, i as int), lv),
            best < i,
        decreases s@.len() - i,
    {
        let ghost t = s@.subrange(0, i + 1);
        proof {
            assert(t.drop_last() =~= s@.subrange(0, i as int));
            lemma_max_index_bounds(s@.subrange(0, i as int), lv);
        }
        if ranks_above(s[i], s[best], labels) {
            best = i;
        }
        i = i + 1;
    }
    assert(s@.subrange(0, s@.len() as int) =~= s@);
    best
}

/// The positions, in leaderboard order, of the rows shown, given each row's
/// count and label: the largest count first, among equal counts the label
/// last in byte order first; the soft cap `max_len` extended by ties, the
/// hard cap `hard` never passed.
pub fn rank_counts(counts: &Vec<u64>, labels: &Vec<Vec<u8>>, max_len: usize, hard: usize) -> (r:
    Vec<usize>)
    requires
        labels@.len() == counts@.len(),
    ensures
        r@ == leaderboard(counts@, label_views(labels@), max_len, hard),
        r@.len() <= hard,
{
    let ghost lv = label_views(labels@);
    let mut rest: Vec<(u64, usize)> = Vec::new();
    let mut i: usize = 0;
    while i < counts.len()
        invariant
            i <= counts@.len(),
            rest@ == tagged(counts@).subrange(0, i as int),
        decreases counts@.len() - i,
    {
        rest.push((counts[i], i));
        i = i + 1;
        assert(rest@ =~= tagged(counts@).subrange(0, i as int));
    }
    assert(rest@ =~= tagged(counts@));
    let mut out: Vec<usize> = Vec::new();
    let mut last: Option<u64> = None;
    let mut going = true;
    while going && rest.len() > 0
        invariant
            lv == label_views(labels@),
            labels@.len() == counts@.len(),
            forall|k: int| 0 <= k < rest@.len() ==> (#[trigger] rest@[k]).1 < labels@.len(),
            out@ + ranked(rest@, lv, max_len, hard, out@.len() as nat, last) == leaderboard(
                counts@,
                lv,
                max_len,
                hard,
            ),
            !going ==> ranked(rest@, lv, max_len, hard, out@.len() as nat, last) == Seq::<
                usize,
            >::empty(),
        decreases rest@.len(), if going { 1int } else { 0int },
    {
        let j = first_max(&rest, labels);
        let c = rest[j].0;
        let shown = out.len() < hard && (out.len() < max_len || last == Some(c));
        if shown {
            let ghost before = rest@;
            let ghost tail = ranked(
                before.remove(j as int),
                lv,
                max_len,
                hard,
                out@.len() as nat + 1,
                Some(c),
            );
            let (_, tag) = rest.remove(j);
            out.push(tag);
            last = Some(c);
            proof {
                assert(out@ + tail =~= out@.drop_last() + (seq![tag] + tail));
                assert forall|k: int| 0 <= k < rest@.len() implies (#[trigger] rest@[k]).1
                    < labels@.len() by {
                    if k < j {
                        assert(rest@[k] == before[k]);
                    } else {
                        assert(rest@[k] == before[k + 1]);
                    }
                }
            }
        } else {
            going = false;
        }
    }
    proof {
        if going {
            assert(rest@.len() == 0);
        }
        assert(out@ + Seq::<usize>::empty() =~= out@);
        lemma_ranked_hard_cap(tagged(counts@), lv, max_len, hard, 0, None);
    }
    out
}

/// The user counter stored for `user_id` in `scope`, if one is there and reads.
pub open spec fn stored_user(c: Map<Seq<u8>, Seq<u8>>, scope: Seq<char>, user_id: i64) -> Option<
    UserModel,
> {
    let k = user_key_bytes(scope, user_id);
    if c.contains_key(k) {
        decode_user(c[k])
    } else {
        None
    }
}

/// The count a user counter moves to on one more repeat: one where there is
/// none; `None` where the stored one does not read or cannot grow.
pub open spec fn next_user_count(c: Map<Seq<u8>, Seq<u8>>, scope: Seq<char>, user_id: i64) -> Option<
    u64,
> {
    if !c.contains_key(user_key_bytes(scope, user_id)) {
        Some(1)
    } else {
        match stored_user(c, scope, user_id) {
            Some(p) => if p.count < u64::MAX {
                Some((p.count + 1) as u64)
            } else {
                None
            },
            None => None,
        }
    }
}

/// The store after one more repeat by `user_id` under the display name
/// `name`; unchanged where the counter cannot move.
pub open spec fn after_increment(
    c: Map<Seq<u8>, Seq<u8>>,
    scope: Seq<char>,
    user_id: i64,
    name: Seq<char>,
) -> Map<Seq<u8>, Seq<u8>> {
    match next_user_count(c, scope, user_id) {
        Some(n) => c.insert(user_key_bytes(scope, user_id), encode_user(UserModel { username: name, count: n })),
        None => c,
    }
}

/// The store after `n` repeats by `user_id`, all under the display name `name`.
pub open spec fn incremented(
    c: Map<Seq<u8>, Seq<u8>>,
    scope: Seq<char>,
    user_id: i64,
    name: Seq<char>,
    n: nat,
) -> Map<Seq<u8>, Seq<u8>>
    decreases n,
{
    if n == 0 {
        c
    } else {
        after_increment(incremented(c, scope, user_id, name, (n - 1) as nat), scope, user_id, name)
    }
}

/// A user with no counter who repeats `n` times has a counter of `n`: one
/// per repeat, none before the first.
pub proof fn lemma_user_counts(
    c: Map<Seq<u8>, Seq<u8>>,
    scope: Seq<char>,
    user_id: i64,
    name: Seq<char>,
    n: nat,
)
    requires
        !c.contains_key(user_key_bytes(scope, user_id)),
        n <= u64::MAX,
        str_bytes(name).len() <= u64::MAX,
    ensures
        n == 0 ==> !incremented(c, scope, user_id, name, n).contains_key(user_key_bytes(scope, user_id)),
        n > 0 ==> stored_user(incremented(c, scope, user_id, name, n), scope, user_id) == Some(
            UserModel { username: name, count: n as u64 },
        ),
    decreases n,
{
    if n > 0 {
        lemma_user_counts(c, scope, user_id, name, (n - 1) as nat);
        lemma_user_round_trip(UserModel { username: name, count: n as u64 });
    }
}

/// The counts and records that the scanned values decode to, in scan order;
/// values that do not read are left out.
pub open spec fn read_users(s: Seq<(Seq<u8>, Seq<u8>)>) -> Seq<UserModel>
    decreases s.len(),
{
    if s.len() == 0 {
        Seq::empty()
    } else {
        read_users(s.drop_last()) + match decode_user(s.last().1) {
            Some(m) => seq![m],
            None => Seq::empty(),
        }
    }
}

pub open spec fn read_infos(s: Seq<(Seq<u8>, Seq<u8>)>) -> Seq<InfoModel>
    decreases s.len(),
{
    if s.len() == 0 {
        Seq::empty()
    } else {
        read_infos(s.drop_last()) + match decode_info(s.last().1) {
            Some(m) => seq![m],
            None => Seq::empty(),
        }
    }
}

pub open spec fn user_counts(u: Seq<UserModel>) -> Seq<u64> {
    u.map_values(|m: UserModel| m.count)
}

pub open spec fn info_counts(u: Seq<InfoModel>) -> Seq<u64> {
    u.map_values(|m: InfoModel| m.count)
}

/// A user's leaderboard label: the display name's bytes.
pub open spec fn user_labels(u: Seq<UserModel>) -> Seq<Seq<u8>> {
    u.map_values(|m: UserModel| str_bytes(m.username))
}

/// A topic's leaderboard label: its first-seen link, or a fixed text where
/// there is none.
pub open spec fn topic_label(m: InfoModel) -> Seq<u8> {
    match m.link {
        Some(l) => str_bytes(l),
        None => str_bytes("Link not available"@),
    }
}

pub open spec fn info_labels(u: Seq<InfoModel>) -> Seq<Seq<u8>> {
    u.map_values(|m: InfoModel| topic_label(m))
}

pub open spec fn user_models(v: Seq<TopUserValue>) -> Seq<UserModel> {
    v.map_values(|m: TopUserValue| m.model())
}

pub open spec fn info_models(v: Seq<MessageInfo>) -> Seq<InfoModel> {
    v.map_values(|m: MessageInfo| m.model())
}

/// The rows of `u` at the positions `picks`.
pub open spec fn pick<T>(u: Seq<T>, picks: Seq<usize>) -> Seq<T> {
    picks.map_values(|i: usize| u[i as int])
}

fn copy_user(u: &TopUserValue) -> (r: TopUserValue)
    ensures
        r.model() == u.model(),
{
    TopUserValue { username: u.username.clone(), count: u.count }
}

fn copy_info(m: &MessageInfo) -> (r: MessageInfo)
    ensures
        r.model() == m.model(),
{
    let link = match &m.link {
        Some(l) => Some(l.clone()),
        None => None,
    };
    MessageInfo { url: m.url.clone(), count: m.count, link, user_id: m.user_id }
}

proof fn lemma_leaderboard_in_range(
    counts: Seq<u64>,
    labels: Seq<Seq<u8>>,
    max_len: usize,
    hard: usize,
)
    ensures
        forall|i: int|
            0 <= i < leaderboard(counts, labels, max_len, hard).len() ==> (#[trigger] leaderboard(
                counts,
                labels,
                max_len,
                hard,
            )[i]) < counts.len(),
{
    lemma_ranked_tags(tagged(counts), labels, max_len, hard, 0, None, counts.len() as int);
}

proof fn lemma_ranked_tags(
    s: Seq<(u64, usize)>,
    labels: Seq<Seq<u8>>,
    max_len: usize,
    hard: usize,
    emitted: nat,
    last: Option<u64>,
    n: int,
)
    requires
        forall|i: int| 0 <= i < s.len() ==> (#[trigger] s[i]).1 < n,
    ensures
        forall|i: int|
            0 <= i < ranked(s, labels, max_len, hard, emitted, last).len() ==> (#[trigger] ranked(
                s,
                labels,
                max_len,
                hard,
                emitted,
                last,
            )[i]) < n,
    decreases s.len(),
{
    if s.len() > 0 {
        let j = max_index(s, labels);
        lemma_max_index_bounds(s, labels);
        if keeps(emitted, s[j].0, last, max_len, hard) {
            let s2 = s.remove(j);
            assert forall|i: int| 0 <= i < s2.len() implies (#[trigger] s2[i]).1 < n by {
                if i < j {
                    assert(s2[i] == s[i]);
                } else {
                    assert(s2[i] == s[i + 1]);
                }
            }
            lemma_ranked_tags(s2, labels, max_len, hard, emitted + 1, Some(s[j].0), n);
            let r = ranked(s, labels, max_len, hard, emitted, last);
            let r2 = ranked(s2, labels, max_len, hard, emitted + 1, Some(s[j].0));
            assert(r == seq![s[j].1] + r2);
            assert forall|i: int| 0 <= i < r.len() implies (#[trigger] r[i]) < n by {
                if i > 0 {
                    assert(r[i] == r2[i - 1]);
                } else {
                    assert(s[j].1 < n);
                }
            }
        }
    }
}

impl MyDB {
    /// Counts one more repeat by `user_id` in `scope` and records `name` as
    /// the user's display name. The counter starts at one. Fails with
    /// `Decode` where the stored counter does not read and with `Overflow`
    /// where it is at its largest; both change nothing.
    pub fn increment_user(&mut self, scope: &str, user_id: i64, name: &str) -> (r: Result<
        u64,
        StoreError,
    >)
        ensures
            ({
                let k = user_key_bytes(scope@, user_id);
                let c = old(self).contents();
                &&& r matches Ok(n) ==> next_user_count(c, scope@, user_id) == Some(n)
                    && final(self).contents() == c.insert(
                    k,
                    encode_user(UserModel { username: name@, count: n }),
                )
                &&& r matches Err(e) ==> e is WriteIo || final(self).contents() == c
                &&& r matches Err(StoreError::Decode) ==> c.contains_key(k) && decode_user(c[k]) is None
                &&& r matches Err(StoreError::Overflow) ==> (stored_user(c, scope@, user_id) matches Some(
                    p,
                ) && p.count == u64::MAX)
                &&& r matches Err(e) ==> e is Io || e is WriteIo || e is Decode || e is Overflow
            }),
    {
        let key = UserKey { chat_id: scope.to_owned(), user_id };
        let k = key.to_bytes();
        let n: u64 = match self.get(k.as_slice()) {
            Err(e) => {
                return Err(e);
            },
            Ok(None) => 1,
            Ok(Some(v)) => match TopUserValue::from_bytes(v.as_slice()) {
                None => {
                    return Err(StoreError::Decode);
                },
                Some(p) => {
                    if p.count == u64::MAX {
                        return Err(StoreError::Overflow);
                    }
                    p.count + 1
                },
            },
        };
        let value = TopUserValue { username: name.to_owned(), count: n };
        let bytes = value.to_bytes();
        match self.put(k.as_slice(), bytes.as_slice()) {
            Ok(()) => Ok(n),
            Err(e) => Err(e),
        }
    }

    /// The user counter of `user_id` in `scope`, if there is one.
    pub fn user_count(&self, scope: &str, user_id: i64) -> (r: Result<Option<TopUserValue>, StoreError>)
        ensures
            ({
                let k = user_key_bytes(scope@, user_id);
                let c = self.contents();
                &&& r matches Ok(None) ==> !c.contains_key(k)
                &&& r matches Ok(Some(m)) ==> c.contains_key(k) && decode_user(c[k]) == Some(m.model())
                &&& r matches Err(e) ==> e == StoreError::Io || (e == StoreError::Decode
                    && c.contains_key(k) && decode_user(c[k]) is None)
            }),
    {
        let key = UserKey { chat_id: scope.to_owned(), user_id };
        let k = key.to_bytes();
        match self.get(k.as_slice()) {
            Err(e) => Err(e),
            Ok(None) => Ok(None),
            Ok(Some(v)) => match TopUserValue::from_bytes(v.as_slice()) {
                Some(m) => Ok(Some(m)),
                None => Err(StoreError::Decode),
            },
        }
    }

    /// The leaderboard of users in `scope`.
    pub fn top_users(&self, scope: &str, cfg: &Config) -> (r: Result<Vec<TopUserValue>, StoreError>)
        ensures
            r matches Ok(v) ==> exists|s: Seq<(Seq<u8>, Seq<u8>)>|
                #[trigger] is_prefix_scan(self.contents(), scope_prefix(StoreKind::Users, scope@), s)
                    && user_models(v@) == pick(
                    read_users(s),
                    leaderboard(
                        user_counts(read_users(s)),
                        user_labels(read_users(s)),
                        cfg.max_len,
                        cfg.last_len_hard,
                    ),
                ),
            r matches Err(e) ==> e == StoreError::Io,
    {
        let prefix = scope_prefix_bytes(StoreKind::Users, scope);
        let es = match self.scan_prefix(prefix.as_slice()) {
            Ok(es) => es,
            Err(e) => {
                return Err(e);
            },
        };
        let ghost s = pairs_view(es@);
        let mut vals: Vec<TopUserValue> = Vec::new();
        let mut counts: Vec<u64> = Vec::new();
        let mut labels: Vec<Vec<u8>> = Vec::new();
        let mut i: usize = 0;
        while i < es.len()
            invariant
                i <= es@.len(),
                s == pairs_view(es@),
                user_models(vals@) == read_users(s.subrange(0, i as int)),
                counts@ == user_counts(user_models(vals@)),
                label_views(labels@) == user_labels(user_models(vals@)),
                labels@.len() == vals@.len(),
            decreases es@.len() - i,
        {
            let ghost t = s.subrange(0, i + 1);
            proof {
                assert(t.drop_last() =~= s.subrange(0, i as int));
                assert(t.last() == (es@[i as int].0@, es@[i as int].1@));
            }
            match TopUserValue::from_bytes(es[i].1.as_slice()) {
                Some(u) => {
                    counts.push(u.count);
                    let ghost lbefore = label_views(labels@);
                    let ghost vbefore = vals@;
                    labels.push(str_to_bytes(u.username.as_str()));
                    vals.push(u);
                    proof {
                        assert(user_models(vals@) =~= read_users(t));
                        assert(counts@ =~= user_counts(user_models(vals@)));
                        assert forall|k: int| 0 <= k < labels@.len() implies #[trigger] label_views(
                            labels@,
                        )[k] == user_labels(user_models(vals@))[k] by {
                            if k < labels@.len() - 1 {
                                assert(label_views(labels@)[k] == lbefore[k]);
                                assert(user_models(vals@)[k] == user_models(vbefore)[k]);
                            }
                        }
                        assert(label_views(labels@) =~= user_labels(user_models(vals@)));
                    }
                },
                None => {
                    proof {
                        assert(read_users(t) =~= read_users(s.subrange(0, i as int)));
                    }
                },
            }
            i = i + 1;
        }
        assert(s.subrange(0, es@.len() as int) =~= s);
        let picks = rank_counts(&counts, &labels, cfg.max_len, cfg.last_len_hard);
        proof {
            lemma_leaderboard_in_range(counts@, label_views(labels@), cfg.max_len, cfg.last_len_hard);
        }
        let mut out: Vec<TopUserValue> = Vec::new();
        let mut m: usize = 0;
        while m < picks.len()
            invariant
                m <= picks@.len(),
                picks@ == leaderboard(counts@, label_views(labels@), cfg.max_len, cfg.last_len_hard),
                counts@.len() == vals@.len(),
                forall|i: int| 0 <= i < picks@.len() ==> (#[trigger] picks@[i]) < counts@.len(),
                user_models(out@) == pick(user_models(vals@), picks@.subrange(0, m as int)),
            decreases picks@.len() - m,
        {
            let ghost before = out@;
            let u = copy_user(&vals[picks[m]]);
            out.push(u);
            proof {
                let p = picks@.subrange(0, m + 1);
                assert(p.drop_last() =~= picks@.subrange(0, m as int));
                assert(user_models(before).len() == m);
                assert forall|i: int| 0 <= i < m + 1 implies #[trigger] user_models(out@)[i] == pick(
                    user_models(vals@),
                    p,
                )[i] by {
                    if i < m {
                        assert(out@[i] == before[i]);
                        assert(user_models(before)[i] == pick(user_models(vals@), p.drop_last())[i]);
                    }
                }
                assert(user_models(out@) =~= pick(user_models(vals@), p));
            }
            m = m + 1;
        }
        assert(picks@.subrange(0, picks@.len() as int) =~= picks@);
        assert(is_prefix_scan(self.contents(), scope_prefix(StoreKind::Users, scope@), s));
        Ok(out)
    }

    /// The leaderboard of content in `scope`, by occurrence count.
    pub fn top_topics(&self, scope: &str, cfg: &Config) -> (r: Result<Vec<MessageInfo>, StoreError>)
        ensures
            r matches Ok(v) ==> exists|s: Seq<(Seq<u8>, Seq<u8>)>|
                #[trigger] is_prefix_scan(self.contents(), scope_prefix(StoreKind::Messages, scope@), s)
                    && info_models(v@) == pick(
                    read_infos(s),
                    leaderboard(
                        info_counts(read_infos(s)),
                        info_labels(read_infos(s)),
                        cfg.max_len,
                        cfg.last_len_hard,
                    ),
                ),
            r matches Err(e) ==> e == StoreError::Io,
    {
        let prefix = scope_prefix_bytes(StoreKind::Messages, scope);
        let es = match self.scan_prefix(prefix.as_slice()) {
            Ok(es) => es,
            Err(e) => {
                return Err(e);
            },
        };
        let ghost s = pairs_view(es@);
        let mut vals: Vec<MessageInfo> = Vec::new();
        let mut counts: Vec<u64> = Vec::new();
        let mut labels: Vec<Vec<u8>> = Vec::new();
        let mut i: usize = 0;
        while i < es.len()
            invariant
                i <= es@.len(),
                s == pairs_view(es@),
                info_models(vals@) == read_infos(s.subrange(0, i as int)),
                counts@ == info_counts(info_models(vals@)),
                label_views(labels@) == info_labels(info_models(vals@)),
                labels@.len() == vals@.len(),
            decreases es@.len() - i,
        {
            let ghost t = s.subrange(0, i + 1);
            proof {
                assert(t.drop_last() =~= s.subrange(0, i as int));
                assert(t.last() == (es@[i as int].0@, es@[i as int].1@));
            }
            match MessageInfo::from_bytes(es[i].1.as_slice()) {
                Some(u) => {
                    counts.push(u.count);
                    let label = match &u.link {
                        Some(l) => str_to_bytes(l.as_str()),
                        None => str_to_bytes("Link not available"),
                    };
                    let ghost lbefore = label_views(labels@);
                    let ghost vbefore = vals@;
                    labels.push(label);
                    vals.push(u);
                    proof {
                        assert(info_models(vals@) =~= read_infos(t));
                        assert(counts@ =~= info_counts(info_models(vals@)));
                        assert forall|k: int| 0 <= k < labels@.len() implies #[trigger] label_views(
                            labels@,
                        )[k] == info_labels(info_models(vals@))[k] by {
                            if k < labels@.len() - 1 {
                                assert(label_views(labels@)[k] == lbefore[k]);
                                assert(info_models(vals@)[k] == info_models(vbefore)[k]);
                            }
                        }
                        assert(label_views(labels@) =~= info_labels(info_models(vals@)));
                    }
                },
                None => {
                    proof {
                        assert(read_infos(t) =~= read_infos(s.subrange(0, i as int)));
                    }
                },
            }
            i = i + 1;
        }
        assert(s.subrange(0, es@.len() as int) =~= s);
        let picks = rank_counts(&counts, &labels, cfg.max_len, cfg.last_len_hard);
        proof {
            lemma_leaderboard_in_range(counts@, label_views(labels@), cfg.max_len, cfg.last_len_hard);
        }
        let mut out: Vec<MessageInfo> = Vec::new();
        let mut m: usize = 0;
        while m < picks.len()
            invariant
                m <= picks@.len(),
                picks@ == leaderboard(counts@, label_views(labels@), cfg.max_len, cfg.last_len_hard),
                counts@.len() == vals@.len(),
                forall|i: int| 0 <= i < picks@.len() ==> (#[trigger] picks@[i]) < counts@.len(),
                info_models(out@) == pick(info_models(vals@), picks@.subrange(0, m as int)),
            decreases picks@.len() - m,
        {
            let ghost before = out@;
            let u = copy_info(&vals[picks[m]]);
            out.push(u);
            proof {
                let p = picks@.subrange(0, m + 1);
                assert(p.drop_last() =~= picks@.subrange(0, m as int));
                assert(info_models(before).len() == m);
                assert forall|i: int| 0 <= i < m + 1 implies #[trigger] info_models(out@)[i] == pick(
                    info_models(vals@),
                    p,
                )[i] by {
                    if i < m {
                        assert(out@[i] == before[i]);
                        assert(info_models(before)[i] == pick(info_models(vals@), p.drop_last())[i]);
                    }
                }
                assert(info_models(out@) =~= pick(info_models(vals@), p));
            }
            m = m + 1;
        }
        assert(picks@.subrange(0, picks@.len() as int) =~= picks@);
        assert(is_prefix_scan(self.contents(), scope_prefix(StoreKind::Messages, scope@), s));
        Ok(out)
    }
}

} // verus!
