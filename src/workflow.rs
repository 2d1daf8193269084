//! What happens when a piece of content is posted: its identity is worked
//! out, the exact-match store records the sighting, and a repeat counts
//! toward the poster's counter.
use crate::board::{next_user_count, stored_user};
use crate::exact::{after_first, after_repeat, bumped, first_info, stored_info};
use crate::keys::{message_key_bytes, user_key_bytes, MessageKey};
use crate::records::{decode_info, decode_user, encode_user, opt_str_view, MessageInfo, UserModel};
use crate::store::{MyDB, StoreError};
use vstd::prelude::*;
use vstd::string::StringExecFns;

verus! {

/// Photos wider than this are not downloaded for hashing.
pub const MAX_PHOTO_WIDTH: u32 = 600;

/// The photo size to hash among `widths`: the first, replaced by each later
/// one that is wider and at most `MAX_PHOTO_WIDTH` wide.
pub open spec fn chosen_photo(widths: Seq<u32>) -> Option<int>
    decreases widths.len(),
{
    if widths.len() == 0 {
        None
    } else {
        let n = widths.len() - 1;
        match chosen_photo(widths.drop_last()) {
            None => Some(n),
            Some(j) => if widths[n] <= MAX_PHOTO_WIDTH && widths[n] > widths[j] {
                Some(n)
            } else {
                Some(j)
            },
        }
    }
}

proof fn lemma_chosen_photo_in_range(widths: Seq<u32>)
    ensures
        chosen_photo(widths) matches Some(j) ==> 0 <= j < widths.len(),
        widths.len() > 0 ==> chosen_photo(widths) is Some,
    decreases widths.len(),
{
    if widths.len() > 0 {
        lemma_chosen_photo_in_range(widths.drop_last());
    }
}

/// Which of the sizes of a photo, given by width, to hash.
pub fn pick_photo(widths: &Vec<u32>) -> (r: Option<usize>)
    ensures
        match r {
            Some(j) => chosen_photo(widths@) == Some(j as int),
            None => chosen_photo(widths@) is None,
        },
{
    let mut best: Option<usize> = None;
    let mut i: usize = 0;
    while i < widths.len()
        invariant
            i <= widths@.len(),
            match best {
                Some(j) => chosen_photo(widths@.subrange(0, i as int)) == Some(j as int),
                None => chosen_photo(widths@.subrange(0, i as int)) is None,
            },
        decreases widths@.len() - i,
    {
        proof {
            let t = widths@.subrange(0, i + 1);
            assert(t.drop_last() =~= widths@.subrange(0, i as int));
            lemma_chosen_photo_in_range(widths@.subrange(0, i as int));
        }
        best = match best {
            None => Some(i),
            Some(j) => if widths[i] <= MAX_PHOTO_WIDTH && widths[i] > widths[j] {
                Some(i)
            } else {
                Some(j)
            },
        };
        i = i + 1;
    }
    assert(widths@.subrange(0, widths@.len() as int) =~= widths@);
    best
}

/// The identity under which a new image is registered.
pub open spec fn image_identity_of(hash: Seq<char>) -> Seq<char> {
    "https://img.telegram.com/"@ + hash
}

pub fn image_identity(hash: &str) -> (r: String)
    ensures
        r@ == image_identity_of(hash@),
{
    let mut s = String::from_str("https://img.telegram.com/");
    s.append(hash);
    s
}

/// The outcome of recording a sighting.
pub struct Sighting {
    /// The occurrence record after the sighting.
    pub info: MessageInfo,
    /// Whether the content had been seen before.
    pub repeat: bool,
}

/// A poster: user id and display name.
pub open spec fn poster_id(user: Option<(i64, String)>) -> Option<i64> {
    match user {
        Some((id, _)) => Some(id),
        None => None,
    }
}

/// What a post does to the exact-match store: a first sighting creates the
/// record, a repeat counts one more on it.
pub open spec fn post_outcome(
    c: Map<Seq<u8>, Seq<u8>>,
    key: MessageKey,
    link: Option<Seq<char>>,
    user_id: Option<i64>,
    s: Sighting,
    c2: Map<Seq<u8>, Seq<u8>>,
) -> bool {
    if !c.contains_key(message_key_bytes(key.chat_id@, key.url@)) {
        &&& !s.repeat
        &&& s.info.model() == first_info(key.url@, link, user_id)
        &&& c2 == after_first(c, key.chat_id@, key.url@, link, user_id)
    } else {
        &&& s.repeat
        &&& stored_info(c, key.chat_id@, key.url@) matches Some(p)
        &&& p.count < u64::MAX
        &&& s.info.model() == bumped(p)
        &&& c2 == after_repeat(c, key.chat_id@, key.url@)
    }
}

/// The exact-match record of `key` is there but does not read.
pub open spec fn record_unreadable(c: Map<Seq<u8>, Seq<u8>>, key: MessageKey) -> bool {
    let k = message_key_bytes(key.chat_id@, key.url@);
    c.contains_key(k) && decode_info(c[k]) is None
}

/// The exact-match record of `key` is at its largest count.
pub open spec fn record_full(c: Map<Seq<u8>, Seq<u8>>, key: MessageKey) -> bool {
    stored_info(c, key.chat_id@, key.url@) matches Some(p) && p.count == u64::MAX
}

/// The counter of `user` is there but does not read.
pub open spec fn counter_unreadable(
    u: Map<Seq<u8>, Seq<u8>>,
    scope: Seq<char>,
    user: Option<(i64, String)>,
) -> bool {
    match user {
        Some((id, _)) => u.contains_key(user_key_bytes(scope, id)) && decode_user(
            u[user_key_bytes(scope, id)],
        ) is None,
        None => false,
    }
}

/// The counter of `user` is at its largest count.
pub open spec fn counter_full(
    u: Map<Seq<u8>, Seq<u8>>,
    scope: Seq<char>,
    user: Option<(i64, String)>,
) -> bool {
    match user {
        Some((id, _)) => stored_user(u, scope, id) matches Some(p) && p.count == u64::MAX,
        None => false,
    }
}

/// What a post does to the user counters: on a repeat by a known poster, one
/// more on the poster's counter, under the name given; nothing otherwise.
pub open spec fn count_outcome(
    u: Map<Seq<u8>, Seq<u8>>,
    scope: Seq<char>,
    repeat: bool,
    user: Option<(i64, String)>,
    u2: Map<Seq<u8>, Seq<u8>>,
) -> bool {
    match user {
        Some((id, name)) => if repeat {
            next_user_count(u, scope, id) matches Some(n) && u2 == u.insert(
                user_key_bytes(scope, id),
                encode_user(UserModel { username: name@, count: n }),
            )
        } else {
            u2 == u
        },
        None => u2 == u,
    }
}

impl MyDB {
    /// Records in the exact-match store that `key` was posted, with the
    /// post's `link` and poster.
    pub fn record_post(&mut self, key: &MessageKey, link: Option<String>, user_id: Option<i64>) -> (r:
        Result<Sighting, StoreError>)
        ensures
            r matches Ok(s) ==> post_outcome(
                old(self).contents(),
                *key,
                opt_str_view(link),
                user_id,
                s,
                final(self).contents(),
            ),
            r matches Err(e) ==> e is WriteIo || final(self).contents() == old(self).contents(),
            r matches Err(StoreError::Decode) ==> record_unreadable(old(self).contents(), *key),
            r matches Err(StoreError::Overflow) ==> record_full(old(self).contents(), *key),
            r matches Err(e) ==> e is Io || e is WriteIo || e is Decode || e is Overflow,
    {
        match self.lookup(key) {
            Err(e) => Err(e),
            Ok(None) => match self.record_first(key, link, user_id) {
                Ok(info) => Ok(Sighting { info, repeat: false }),
                Err(e) => Err(e),
            },
            Ok(Some(_)) => match self.record_repeat(key) {
                Ok(info) => Ok(Sighting { info, repeat: true }),
                Err(e) => Err(e),
            },
        }
    }
}

/// Counts a repeat toward its poster in `scope`. A first sighting, or a post
/// whose poster is unknown, counts nothing.
pub fn count_repeat(users: &mut MyDB, scope: &str, repeat: bool, user: &Option<(i64, String)>) -> (r:
    Result<(), StoreError>)
    ensures
        !repeat || user is None ==> r is Ok && final(users).contents() == old(users).contents(),
        r is Ok ==> count_outcome(old(users).contents(), scope@, repeat, *user, final(users).contents()),
        r matches Err(e) ==> e is WriteIo || final(users).contents() == old(users).contents(),
        r matches Err(StoreError::Decode) ==> counter_unreadable(old(users).contents(), scope@, *user),
        r matches Err(StoreError::Overflow) ==> counter_full(old(users).contents(), scope@, *user),
        r matches Err(e) ==> e is Io || e is WriteIo || e is Decode || e is Overflow,
{
    if !repeat {
        return Ok(());
    }
    match user {
        Some((id, name)) => match users.increment_user(scope, *id, name.as_str()) {
            Ok(_) => Ok(()),
            Err(e) => Err(e),
        },
        None => Ok(()),
    }
}

/// Records that `key` was posted, with the post's `link` and poster. A first
/// sighting creates the occurrence record and touches no counter. A repeat
/// counts one more on the record and, where the poster is known, one more on
/// the poster's counter, whose display name becomes the one given.
pub fn record_sighting(
    messages: &mut MyDB,
    users: &mut MyDB,
    key: &MessageKey,
    link: Option<String>,
    user: Option<(i64, String)>,
) -> (r: Result<Sighting, StoreError>)
    ensures
        r matches Ok(s) ==> post_outcome(
            old(messages).contents(),
            *key,
            opt_str_view(link),
            poster_id(user),
            s,
            final(messages).contents(),
        ) && count_outcome(
            old(users).contents(),
            key.chat_id@,
            s.repeat,
            user,
            final(users).contents(),
        ),
        r matches Err(e) ==> e is WriteIo || final(users).contents() == old(users).contents(),
        r matches Err(StoreError::Decode) ==> record_unreadable(old(messages).contents(), *key)
            || (old(messages).contents().contains_key(message_key_bytes(key.chat_id@, key.url@))
            && counter_unreadable(old(users).contents(), key.chat_id@, user)),
        r matches Err(StoreError::Overflow) ==> record_full(old(messages).contents(), *key)
            || (old(messages).contents().contains_key(message_key_bytes(key.chat_id@, key.url@))
            && counter_full(old(users).contents(), key.chat_id@, user)),
        r matches Err(e) ==> e is Io || e is WriteIo || e is Decode || e is Overflow,
{
    let user_id = match &user {
        Some((id, _)) => Some(*id),
        None => None,
    };
    let s = match messages.record_post(key, link, user_id) {
        Ok(s) => s,
        Err(e) => {
            return Err(e);
        },
    };
    match count_repeat(users, key.chat_id.as_str(), s.repeat, &user) {
        Ok(()) => Ok(s),
        Err(e) => Err(e),
    }
}

} // verus!
