//! The exact-match store: one occurrence record per (scope, identity).
use crate::keys::{message_key_bytes, MessageKey};
use crate::records::{decode_info, encode_info, lemma_info_round_trip, opt_str_view, InfoModel, MessageInfo};
use crate::codec::{opt_str_bytes, str_bytes};
use crate::store::{MyDB, StoreError};
use vstd::prelude::*;

verus! {

/// The occurrence record stored for `url` in `scope`, if one is there and reads.
pub open spec fn stored_info(c: Map<Seq<u8>, Seq<u8>>, scope: Seq<char>, url: Seq<char>) -> Option<
    InfoModel,
> {
    let k = message_key_bytes(scope, url);
    if c.contains_key(k) {
        decode_info(c[k])
    } else {
        None
    }
}

/// The record of a first sighting.
pub open spec fn first_info(url: Seq<char>, link: Option<Seq<char>>, user_id: Option<i64>) -> InfoModel {
    InfoModel { url, count: 1, link, user_id }
}

/// The store after a first sighting of `url` in `scope`.
pub open spec fn after_first(
    c: Map<Seq<u8>, Seq<u8>>,
    scope: Seq<char>,
    url: Seq<char>,
    link: Option<Seq<char>>,
    user_id: Option<i64>,
) -> Map<Seq<u8>, Seq<u8>> {
    c.insert(message_key_bytes(scope, url), encode_info(first_info(url, link, user_id)))
}

/// A record seen once more.
pub open spec fn bumped(m: InfoModel) -> InfoModel {
    InfoModel { count: (m.count + 1) as u64, ..m }
}

/// The store after one more sighting of `url` in `scope`; unchanged where no
/// record reads there or its count is at its largest.
pub open spec fn after_repeat(c: Map<Seq<u8>, Seq<u8>>, scope: Seq<char>, url: Seq<char>) -> Map<
    Seq<u8>,
    Seq<u8>,
> {
    match stored_info(c, scope, url) {
        Some(m) => if m.count < u64::MAX {
            c.insert(message_key_bytes(scope, url), encode_info(bumped(m)))
        } else {
            c
        },
        None => c,
    }
}

/// The store after `n` more sightings.
pub open spec fn repeated(c: Map<Seq<u8>, Seq<u8>>, scope: Seq<char>, url: Seq<char>, n: nat) -> Map<
    Seq<u8>,
    Seq<u8>,
>
    decreases n,
{
    if n == 0 {
        c
    } else {
        after_repeat(repeated(c, scope, url, (n - 1) as nat), scope, url)
    }
}

/// After a first sighting and `n` repeats the count is `n + 1`, and nothing
/// else of the record has changed: counts grow by one per repeat, with no gap.
pub proof fn lemma_repeat_counts(
    c: Map<Seq<u8>, Seq<u8>>,
    scope: Seq<char>,
    url: Seq<char>,
    link: Option<Seq<char>>,
    user_id: Option<i64>,
    n: nat,
)
    requires
        n < u64::MAX,
        str_bytes(url).len() <= u64::MAX,
        opt_str_bytes(link).len() <= u64::MAX,
    ensures
        stored_info(repeated(after_first(c, scope, url, link, user_id), scope, url, n), scope, url)
            == Some(InfoModel { count: (n + 1) as u64, ..first_info(url, link, user_id) }),
    decreases n,
{
    if n == 0 {
        lemma_info_round_trip(first_info(url, link, user_id));
    } else {
        lemma_repeat_counts(c, scope, url, link, user_id, (n - 1) as nat);
        let m = InfoModel { count: n as u64, ..first_info(url, link, user_id) };
        lemma_info_round_trip(bumped(m));
    }
}

/// A store of occurrence records, keyed by `MessageKey`. A failure reads as
/// "nothing there" or "not done": callers treat the content as unseen.
pub trait KVStore {
    /// What the store holds.
    spec fn stored(&self) -> Map<Seq<u8>, Seq<u8>>;

    /// Stores `v` as the record of `k`; `true` where that was done. `false`
    /// means the substrate's write failed, after which nothing is stated of
    /// what the store holds.
    fn save(&mut self, k: &MessageKey, v: &MessageInfo) -> (r: bool)
        ensures
            r ==> final(self).stored() == old(self).stored().insert(
                message_key_bytes(k.chat_id@, k.url@),
                encode_info(v.model()),
            ),
    ;

    /// The record of `k`, where one is there, reads, and could be fetched.
    fn find(&self, k: &MessageKey) -> (r: Option<MessageInfo>)
        ensures
            r matches Some(m) ==> self.stored().contains_key(message_key_bytes(k.chat_id@, k.url@))
                && decode_info(self.stored()[message_key_bytes(k.chat_id@, k.url@)]) == Some(
                m.model(),
            ),
    ;

    /// Removes the record of `k`; `true` where that was done. As with `save`,
    /// `false` leaves the store in a state nothing states.
    fn delete(&mut self, k: &MessageKey) -> (r: bool)
        ensures
            r ==> final(self).stored() == old(self).stored().remove(
                message_key_bytes(k.chat_id@, k.url@),
            ),
    ;
}

impl KVStore for MyDB {
    open spec fn stored(&self) -> Map<Seq<u8>, Seq<u8>> {
        self.contents()
    }

    fn save(&mut self, k: &MessageKey, v: &MessageInfo) -> (r: bool) {
        let key = k.to_bytes();
        let value = v.to_bytes();
        self.put(key.as_slice(), value.as_slice()).is_ok()
    }

    fn find(&self, k: &MessageKey) -> (r: Option<MessageInfo>) {
        match self.lookup(k) {
            Ok(found) => found,
            Err(_) => None,
        }
    }

    fn delete(&mut self, k: &MessageKey) -> (r: bool) {
        let key = k.to_bytes();
        MyDB::delete(self, key.as_slice()).is_ok()
    }
}

impl MyDB {
    /// The occurrence record of `key`, if there is one.
    pub fn lookup(&self, key: &MessageKey) -> (r: Result<Option<MessageInfo>, StoreError>)
        ensures
            ({
                let k = message_key_bytes(key.chat_id@, key.url@);
                let c = self.contents();
                &&& r matches Ok(None) ==> !c.contains_key(k)
                &&& r matches Ok(Some(m)) ==> c.contains_key(k) && decode_info(c[k]) == Some(
                    m.model(),
                )
                &&& r matches Err(e) ==> e == StoreError::Io || (e == StoreError::Decode
                    && c.contains_key(k) && decode_info(c[k]) is None)
            }),
    {
        let k = key.to_bytes();
        match self.get(k.as_slice()) {
            Err(e) => Err(e),
            Ok(None) => Ok(None),
            Ok(Some(v)) => match MessageInfo::from_bytes(v.as_slice()) {
                Some(m) => Ok(Some(m)),
                None => Err(StoreError::Decode),
            },
        }
    }

    /// Records the first sighting of `key`: count one, with the link and the
    /// user of that sighting. Fails with `AlreadyPresent` where a record is
    /// there already, and then changes nothing.
    pub fn record_first(&mut self, key: &MessageKey, link: Option<String>, user_id: Option<i64>) -> (r:
        Result<MessageInfo, StoreError>)
        ensures
            ({
                let k = message_key_bytes(key.chat_id@, key.url@);
                let c = old(self).contents();
                &&& r matches Ok(m) ==> !c.contains_key(k) && m.model() == first_info(
                    key.url@,
                    opt_str_view(link),
                    user_id,
                ) && final(self).contents() == after_first(
                    c,
                    key.chat_id@,
                    key.url@,
                    opt_str_view(link),
                    user_id,
                )
                &&& r matches Err(e) ==> e is WriteIo || final(self).contents() == c
                &&& r matches Err(StoreError::AlreadyPresent) ==> c.contains_key(k)
                &&& r matches Err(e) ==> e is Io || e is WriteIo || e is AlreadyPresent
            }),
    {
        let k = key.to_bytes();
        match self.get(k.as_slice()) {
            Err(e) => Err(e),
            Ok(Some(_)) => Err(StoreError::AlreadyPresent),
            Ok(None) => {
                let info = MessageInfo { url: key.url.clone(), count: 1, link, user_id };
                let v = info.to_bytes();
                match self.put(k.as_slice(), v.as_slice()) {
                    Ok(()) => Ok(info),
                    Err(e) => Err(e),
                }
            },
        }
    }

    /// Records one more sighting of `key`: its count grows by one and nothing
    /// else of the record changes. Fails with `Absent` where no record is
    /// there, `Decode` where it does not read, `Overflow` where the count is
    /// at its largest; each of these changes nothing.
    pub fn record_repeat(&mut self, key: &MessageKey) -> (r: Result<MessageInfo, StoreError>)
        ensures
            ({
                let k = message_key_bytes(key.chat_id@, key.url@);
                let c = old(self).contents();
                &&& r matches Ok(m) ==> (stored_info(c, key.chat_id@, key.url@) matches Some(p)
                    && p.count < u64::MAX && m.model() == bumped(p) && final(self).contents()
                    == after_repeat(c, key.chat_id@, key.url@))
                &&& r matches Err(e) ==> e is WriteIo || final(self).contents() == c
                &&& r matches Err(StoreError::Absent) ==> !c.contains_key(k)
                &&& r matches Err(StoreError::Decode) ==> c.contains_key(k) && decode_info(c[k]) is None
                &&& r matches Err(StoreError::Overflow) ==> (stored_info(c, key.chat_id@, key.url@) matches Some(p)
                    && p.count == u64::MAX)
                &&& r matches Err(e) ==> e is Io || e is WriteIo || e is Absent || e is Decode
                    || e is Overflow
            }),
    {
        let k = key.to_bytes();
        let prev = match self.get(k.as_slice()) {
            Err(e) => {
                return Err(e);
            },
            Ok(None) => {
                return Err(StoreError::Absent);
            },
            Ok(Some(v)) => match MessageInfo::from_bytes(v.as_slice()) {
                Some(m) => m,
                None => {
                    return Err(StoreError::Decode);
                },
            },
        };
        if prev.count == u64::MAX {
            return Err(StoreError::Overflow);
        }
        let info = MessageInfo {
            url: prev.url,
            count: prev.count + 1,
            link: prev.link,
            user_id: prev.user_id,
        };
        let v = info.to_bytes();
        match self.put(k.as_slice(), v.as_slice()) {
            Ok(()) => Ok(info),
            Err(e) => Err(e),
        }
    }
}

} // verus!
