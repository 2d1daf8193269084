//! The perceptual match index: for each scope, hashes of images seen lately,
//! each with the identity it stands for and when it was last touched.
//!
//! A lookup scans the scope once. Entries older than the time to live are
//! set aside for retirement; among the others the nearest hash wins, a
//! smaller distance first and then the most recent touch (then the first in
//! key order). A winner closer than the threshold is a hit and is touched;
//! otherwise the query is registered as a new entry. In live mode the
//! entries set aside are removed in the same call; in dry-run mode they are
//! only reported.
use crate::config::Config;
use crate::keys::{image_key_bytes, is_prefix, key_bytes, scope_prefix, scope_prefix_bytes, StoreKind};
use crate::codec::str_to_bytes;
use crate::phash::{hamming, hamming_distance, hash_bits, hash_bits_of, MAX_HASH_BYTES, MAX_HASH_TEXT};
use vstd::string::StringSliceAdditionalSpecFns;
use crate::records::{decode_image, encode_image, ImageModel, ImageValue};
use crate::store::{is_prefix_scan, lex_lt, pairs_view, MyDB, StoreError};
use vstd::prelude::*;
use vstd::utf8::encode_utf8;

verus! {

pub open spec fn image_prefix(scope: Seq<char>) -> Seq<u8> {
    scope_prefix(StoreKind::Images, scope)
}

/// An entry older than the time to live.
pub open spec fn is_expired(e: ImageModel, now: i64, ttl: i64) -> bool {
    now as int - e.timestamp as int > ttl as int
}

pub open spec fn in_scope(c: Map<Seq<u8>, Seq<u8>>, scope: Seq<char>, k: Seq<u8>) -> bool {
    c.contains_key(k) && is_prefix(image_prefix(scope), k)
}

/// `k` is an entry of the scope that reads and is expired.
pub open spec fn expired_key(
    c: Map<Seq<u8>, Seq<u8>>,
    scope: Seq<char>,
    k: Seq<u8>,
    now: i64,
    ttl: i64,
) -> bool {
    &&& in_scope(c, scope, k)
    &&& decode_image(c[k]) matches Some(e)
    &&& is_expired(e, now, ttl)
}

/// `k` is a live entry of the scope whose hash decodes to the width of `q`.
pub open spec fn is_candidate(
    c: Map<Seq<u8>, Seq<u8>>,
    scope: Seq<char>,
    k: Seq<u8>,
    q: Seq<u8>,
    now: i64,
    ttl: i64,
) -> bool {
    &&& in_scope(c, scope, k)
    &&& decode_image(c[k]) matches Some(e)
    &&& !is_expired(e, now, ttl)
    &&& encode_utf8(e.hash).len() <= MAX_HASH_TEXT
    &&& hash_bits_of(e.hash) matches Some(bits)
    &&& bits.len() == q.len()
}

pub open spec fn entry_of(c: Map<Seq<u8>, Seq<u8>>, k: Seq<u8>) -> ImageModel {
    decode_image(c[k])->0
}

pub open spec fn distance_of(c: Map<Seq<u8>, Seq<u8>>, k: Seq<u8>, q: Seq<u8>) -> nat {
    hamming(hash_bits_of(entry_of(c, k).hash)->0, q)
}

/// `k1` is strictly nearer to `q` than `k2`: a smaller distance, or the same
/// distance and a later touch.
pub open spec fn nearer(c: Map<Seq<u8>, Seq<u8>>, k1: Seq<u8>, k2: Seq<u8>, q: Seq<u8>) -> bool {
    distance_of(c, k1, q) < distance_of(c, k2, q) || (distance_of(c, k1, q) == distance_of(c, k2, q)
        && entry_of(c, k1).timestamp > entry_of(c, k2).timestamp)
}

/// `k` is a candidate that no candidate is nearer than.
pub open spec fn is_winner(
    c: Map<Seq<u8>, Seq<u8>>,
    scope: Seq<char>,
    k: Seq<u8>,
    q: Seq<u8>,
    now: i64,
    ttl: i64,
) -> bool {
    &&& is_candidate(c, scope, k, q, now, ttl)
    &&& forall|k2: Seq<u8>| #[trigger]
        is_candidate(c, scope, k2, q, now, ttl) ==> !nearer(c, k2, k, q)
}

/// Some candidate is closer to `q` than the threshold.
pub open spec fn is_hit(
    c: Map<Seq<u8>, Seq<u8>>,
    scope: Seq<char>,
    q: Seq<u8>,
    now: i64,
    cfg: Config,
) -> bool {
    exists|k: Seq<u8>|
        #[trigger] is_candidate(c, scope, k, q, now, cfg.ttl_seconds) && distance_of(c, k, q)
            < cfg.similarity_threshold
}

pub open spec fn expired_keys(c: Map<Seq<u8>, Seq<u8>>, scope: Seq<char>, now: i64, ttl: i64) -> Set<
    Seq<u8>,
> {
    Set::new(|k: Seq<u8>| expired_key(c, scope, k, now, ttl))
}

/// The store once the expired entries of the scope are retired, in live mode.
pub open spec fn after_eviction(
    c: Map<Seq<u8>, Seq<u8>>,
    scope: Seq<char>,
    now: i64,
    cfg: Config,
) -> Map<Seq<u8>, Seq<u8>> {
    if cfg.dry_run {
        c
    } else {
        c.remove_keys(expired_keys(c, scope, now, cfg.ttl_seconds))
    }
}

/// The new entry that a miss registers.
pub open spec fn fresh_entry(hash: Seq<char>, url: Seq<char>, now: i64) -> ImageModel {
    ImageModel { hash, url, timestamp: now }
}

/// What a lookup of `hash` (with bits `q`) in `scope` at `now` returns and
/// leaves behind: on a hit the identity of the winner, which is touched; on a
/// miss the candidate identity, registered under the query hash. Among
/// winners equally near (same distance, same touch) the one first in key
/// order is chosen. Only stored hashes whose text is at most `MAX_HASH_TEXT`
/// bytes and whose width equals the query's are compared (see
/// `is_candidate`); a query wider than `MAX_HASH_BYTES` is refused.
pub open spec fn lookup_outcome(
    c: Map<Seq<u8>, Seq<u8>>,
    scope: Seq<char>,
    hash: Seq<char>,
    q: Seq<u8>,
    candidate: Seq<char>,
    now: i64,
    cfg: Config,
    hit: bool,
    url: Seq<char>,
    c2: Map<Seq<u8>, Seq<u8>>,
) -> bool {
    if is_hit(c, scope, q, now, cfg) {
        &&& hit
        &&& exists|k: Seq<u8>|
            #[trigger] is_winner(c, scope, k, q, now, cfg.ttl_seconds) && url == entry_of(c, k).url
                && c2 == after_eviction(c, scope, now, cfg).insert(
                k,
                encode_image(ImageModel { timestamp: now, ..entry_of(c, k) }),
            ) && (forall|k2: Seq<u8>|
                #[trigger] is_winner(c, scope, k2, q, now, cfg.ttl_seconds) && k2 != k ==> lex_lt(
                    k,
                    k2,
                ))
    } else {
        &&& !hit
        &&& url == candidate
        &&& c2 == after_eviction(c, scope, now, cfg).insert(
            image_key_bytes(scope, hash),
            encode_image(fresh_entry(hash, candidate, now)),
        )
    }
}

/// A query hash that a lookup refuses: its text is longer than
/// `MAX_HASH_TEXT` bytes, it does not decode, or it is wider than
/// `MAX_HASH_BYTES`.
pub open spec fn query_refused(hash: Seq<char>) -> bool {
    ||| encode_utf8(hash).len() > MAX_HASH_TEXT
    ||| hash_bits_of(hash) is None
    ||| (hash_bits_of(hash)->0).len() > MAX_HASH_BYTES
}

/// What a lookup found.
pub struct ImageMatch {
    /// The representative identity: the winner's on a hit, else the candidate.
    pub url: String,
    /// Whether an entry closer than the threshold was found.
    pub hit: bool,
    /// The keys of the expired entries the scan met: removed in live mode,
    /// only reported in dry-run mode.
    pub stale: Vec<Vec<u8>>,
}

pub open spec fn key_set(v: Seq<Vec<u8>>, n: int) -> Set<Seq<u8>> {
    Set::new(|k: Seq<u8>| exists|m: int| 0 <= m < n && (#[trigger] v[m])@ == k)
}

/// Where the scope holds one live entry, a query within the threshold of its
/// hash returns its identity and touches it; a query at or beyond the
/// threshold registers a new entry and leaves that one as it was.
pub proof fn lemma_single_entry_lookup(
    c: Map<Seq<u8>, Seq<u8>>,
    scope: Seq<char>,
    h1: Seq<char>,
    url1: Seq<char>,
    t1: i64,
    b1: Seq<u8>,
    hash: Seq<char>,
    q: Seq<u8>,
    candidate: Seq<char>,
    now: i64,
    cfg: Config,
    hit: bool,
    url: Seq<char>,
    c2: Map<Seq<u8>, Seq<u8>>,
)
    requires
        forall|k: Seq<u8>| in_scope(c, scope, k) <==> k == image_key_bytes(scope, h1),
        c.contains_key(image_key_bytes(scope, h1)),
        decode_image(c[image_key_bytes(scope, h1)]) == Some(ImageModel { hash: h1, url: url1, timestamp: t1 }),
        !is_expired(ImageModel { hash: h1, url: url1, timestamp: t1 }, now, cfg.ttl_seconds),
        hash_bits_of(h1) == Some(b1),
        encode_utf8(h1).len() <= MAX_HASH_TEXT,
        encode_utf8(url1).len() <= u64::MAX,
        b1.len() == q.len(),
        lookup_outcome(c, scope, hash, q, candidate, now, cfg, hit, url, c2),
    ensures
        hamming(b1, q) < cfg.similarity_threshold ==> hit && url == url1 && c2 == c.insert(
            image_key_bytes(scope, h1),
            encode_image(ImageModel { hash: h1, url: url1, timestamp: now }),
        ),
        hamming(b1, q) >= cfg.similarity_threshold ==> !hit && url == candidate && c2 == c.insert(
            image_key_bytes(scope, hash),
            encode_image(fresh_entry(hash, candidate, now)),
        ),
        hamming(b1, q) >= cfg.similarity_threshold && hash != h1 ==> c2[image_key_bytes(scope, h1)]
            == c[image_key_bytes(scope, h1)],
        hamming(b1, q) < cfg.similarity_threshold ==> decode_image(c2[image_key_bytes(scope, h1)])
            == Some(ImageModel { hash: h1, url: url1, timestamp: now }),
{
    crate::records::lemma_image_round_trip(ImageModel { hash: h1, url: url1, timestamp: now });
    let k1 = image_key_bytes(scope, h1);
    let ttl = cfg.ttl_seconds;
    assert(in_scope(c, scope, k1));
    assert(is_candidate(c, scope, k1, q, now, ttl));
    assert(expired_keys(c, scope, now, ttl) =~= Set::empty()) by {
        assert forall|k: Seq<u8>| !expired_key(c, scope, k, now, ttl) by {
            if in_scope(c, scope, k) {
                assert(k == k1);
            }
        }
    }
    assert(c.remove_keys(Set::empty()) =~= c);
    assert(after_eviction(c, scope, now, cfg) == c);
    if hamming(b1, q) < cfg.similarity_threshold {
        assert(is_hit(c, scope, q, now, cfg));
        let w = choose|w: Seq<u8>|
            #[trigger] is_winner(c, scope, w, q, now, ttl) && url == entry_of(c, w).url && c2
                == after_eviction(c, scope, now, cfg).insert(
                w,
                encode_image(ImageModel { timestamp: now, ..entry_of(c, w) }),
            );
        assert(in_scope(c, scope, w));
    } else {
        assert forall|k: Seq<u8>|
            #[trigger] is_candidate(c, scope, k, q, now, ttl) implies distance_of(c, k, q)
            >= cfg.similarity_threshold by {
            assert(in_scope(c, scope, k));
        }
        assert(!is_hit(c, scope, q, now, cfg));
        if hash != h1 && image_key_bytes(scope, hash) == k1 {
            crate::keys::lemma_key_injective(
                StoreKind::Images,
                scope,
                crate::codec::str_bytes(hash),
                StoreKind::Images,
                scope,
                crate::codec::str_bytes(h1),
            );
            crate::codec::lemma_str_round_trip(hash);
            crate::codec::lemma_str_round_trip(h1);
        }
    }
}

/// An expired entry that a lookup meets is gone afterwards in live mode and
/// untouched in dry-run mode (unless the lookup registered its own query
/// under that very key); the winner of a hit is never expired and stays.
pub proof fn lemma_stale_entries(
    c: Map<Seq<u8>, Seq<u8>>,
    scope: Seq<char>,
    hash: Seq<char>,
    q: Seq<u8>,
    candidate: Seq<char>,
    now: i64,
    cfg: Config,
    hit: bool,
    url: Seq<char>,
    c2: Map<Seq<u8>, Seq<u8>>,
    k: Seq<u8>,
)
    requires
        lookup_outcome(c, scope, hash, q, candidate, now, cfg, hit, url, c2),
        expired_key(c, scope, k, now, cfg.ttl_seconds),
        k != image_key_bytes(scope, hash),
    ensures
        !cfg.dry_run ==> !c2.contains_key(k),
        cfg.dry_run ==> c2.contains_key(k) && c2[k] == c[k],
        forall|w: Seq<u8>|
            #[trigger] is_winner(c, scope, w, q, now, cfg.ttl_seconds) ==> !expired_key(
                c,
                scope,
                w,
                now,
                cfg.ttl_seconds,
            ),
        hit ==> exists|w: Seq<u8>|
            #[trigger] is_winner(c, scope, w, q, now, cfg.ttl_seconds) && c2.contains_key(w),
{
    let ttl = cfg.ttl_seconds;
    assert(expired_keys(c, scope, now, ttl).contains(k));
    if is_hit(c, scope, q, now, cfg) {
        let w = choose|w: Seq<u8>|
            #[trigger] is_winner(c, scope, w, q, now, ttl) && url == entry_of(c, w).url && c2
                == after_eviction(c, scope, now, cfg).insert(
                w,
                encode_image(ImageModel { timestamp: now, ..entry_of(c, w) }),
            );
        assert(w != k);
        assert(c2.contains_key(w));
    }
}

impl MyDB {
    /// Removes every key of `stale`.
    fn evict_keys(&mut self, stale: &Vec<Vec<u8>>) -> (r: Result<(), StoreError>)
        ensures
            r is Ok ==> final(self).contents() == old(self).contents().remove_keys(
                key_set(stale@, stale@.len() as int),
            ),
            r matches Err(e) ==> e is WriteIo,
    {
        let ghost c = self.contents();
        let mut m: usize = 0;
        while m < stale.len()
            invariant
                m <= stale@.len(),
                self.contents() == c.remove_keys(key_set(stale@, m as int)),
            decreases stale@.len() - m,
        {
            match self.delete(stale[m].as_slice()) {
                Ok(()) => {},
                Err(e) => {
                    return Err(e);
                },
            }
            proof {
                assert(c.remove_keys(key_set(stale@, m as int)).remove(stale@[m as int]@)
                    =~= c.remove_keys(key_set(stale@, m + 1)));
            }
            m = m + 1;
        }
        Ok(())
    }

    /// Removes every expired index entry of `scope` at time `now`, whatever
    /// the dry-run setting, and returns their keys.
    pub fn retire_expired(&mut self, scope: &str, now: i64, ttl: i64) -> (r: Result<
        Vec<Vec<u8>>,
        StoreError,
    >)
        ensures
            r matches Ok(v) ==> key_set(v@, v@.len() as int) == expired_keys(
                old(self).contents(),
                scope@,
                now,
                ttl,
            ) && final(self).contents() == old(self).contents().remove_keys(
                expired_keys(old(self).contents(), scope@, now, ttl),
            ),
            r matches Err(e) ==> e is Io || e is WriteIo,
            r matches Err(StoreError::Io) ==> final(self).contents() == old(self).contents(),
    {
        let ghost c = self.contents();
        let ghost sc = scope@;
        let prefix = scope_prefix_bytes(StoreKind::Images, scope);
        let es = match self.scan_prefix(prefix.as_slice()) {
            Ok(es) => es,
            Err(e) => {
                return Err(e);
            },
        };
        let ghost s = pairs_view(es@);
        let mut stale: Vec<Vec<u8>> = Vec::new();
        let mut i: usize = 0;
        while i < es.len()
            invariant
                i <= es@.len(),
                s == pairs_view(es@),
                is_prefix_scan(c, image_prefix(sc), s),
                forall|m: int|
                    0 <= m < stale@.len() ==> expired_key(c, sc, (#[trigger] stale@[m])@, now, ttl),
                forall|j: int|
                    0 <= j < i && expired_key(c, sc, #[trigger] s[j].0, now, ttl) ==> key_set(
                        stale@,
                        stale@.len() as int,
                    ).contains(s[j].0),
            decreases es@.len() - i,
        {
            let ghost k = s[i as int].0;
            assert(s[i as int] == (es@[i as int].0@, es@[i as int].1@));
            match ImageValue::from_bytes(es[i].1.as_slice()) {
                None => {},
                Some(e) => {
                    if now as i128 - e.timestamp as i128 > ttl as i128 {
                        let ghost before = stale@;
                        stale.push(es[i].0.clone());
                        proof {
                            assert(stale@[before.len() as int]@ == k);
                            assert forall|kk: Seq<u8>|
                                key_set(before, before.len() as int).contains(kk) implies key_set(
                                stale@,
                                stale@.len() as int,
                            ).contains(kk) by {
                                let m = choose|m: int|
                                    0 <= m < before.len() && (#[trigger] before[m])@ == kk;
                                assert(stale@[m] == before[m]);
                            }
                            assert(key_set(stale@, stale@.len() as int).contains(k));
                        }
                    }
                },
            }
            i = i + 1;
        }
        proof {
            assert forall|kk: Seq<u8>|
                expired_key(c, sc, kk, now, ttl) implies key_set(
                stale@,
                stale@.len() as int,
            ).contains(kk) by {
                let j = choose|j: int| 0 <= j < s.len() && s[j].0 == kk;
            }
            assert(key_set(stale@, stale@.len() as int) =~= expired_keys(c, sc, now, ttl));
        }
        match self.evict_keys(&stale) {
            Ok(()) => Ok(stale),
            Err(e) => Err(e),
        }
    }

    /// Looks `hash` up among the scope's index entries at time `now`, and
    /// registers it under `candidate` where nothing is close enough; expired
    /// entries met on the way are retired (live mode) or reported (dry-run).
    /// Fails with `HashDecode`, changing nothing, where `hash` does not
    /// decode or is wider than the library compares.
    pub fn find_or_register_at(
        &mut self,
        scope: &str,
        hash: &str,
        candidate: &str,
        now: i64,
        cfg: &Config,
    ) -> (r: Result<ImageMatch, StoreError>)
        ensures
            r matches Ok(m) ==> (hash_bits_of(hash@) matches Some(q) && lookup_outcome(
                old(self).contents(),
                scope@,
                hash@,
                q,
                candidate@,
                now,
                *cfg,
                m.hit,
                m.url@,
                final(self).contents(),
            ) && key_set(m.stale@, m.stale@.len() as int) == expired_keys(
                old(self).contents(),
                scope@,
                now,
                cfg.ttl_seconds,
            )),
            query_refused(hash@) <==> r matches Err(StoreError::HashDecode),
            r matches Err(e) ==> e is WriteIo || final(self).contents() == old(self).contents(),
            r matches Err(e) ==> e is Io || e is WriteIo || e is HashDecode,
    {
        if hash.as_bytes().len() > MAX_HASH_TEXT {
            return Err(StoreError::HashDecode);
        }
        let q = match hash_bits(hash) {
            Some(q) => q,
            None => {
                return Err(StoreError::HashDecode);
            },
        };
        if q.len() > MAX_HASH_BYTES {
            return Err(StoreError::HashDecode);
        }
        let ghost c = self.contents();
        let ghost sc = scope@;
        let ttl = cfg.ttl_seconds;
        let prefix = scope_prefix_bytes(StoreKind::Images, scope);
        let es = match self.scan_prefix(prefix.as_slice()) {
            Ok(es) => es,
            Err(e) => {
                return Err(e);
            },
        };
        let ghost s = pairs_view(es@);
        let mut stale: Vec<Vec<u8>> = Vec::new();
        let mut best: Option<(usize, u64, i64)> = None;
        let mut i: usize = 0;
        while i < es.len()
            invariant
                i <= es@.len(),
                s == pairs_view(es@),
                is_prefix_scan(c, image_prefix(sc), s),
                q@.len() <= MAX_HASH_BYTES,
                ttl == cfg.ttl_seconds,
                forall|m: int|
                    0 <= m < stale@.len() ==> expired_key(c, sc, (#[trigger] stale@[m])@, now, ttl),
                forall|j: int|
                    0 <= j < i && expired_key(c, sc, #[trigger] s[j].0, now, ttl) ==> key_set(
                        stale@,
                        stale@.len() as int,
                    ).contains(s[j].0),
                match best {
                    None => forall|j: int|
                        0 <= j < i ==> !is_candidate(c, sc, #[trigger] s[j].0, q@, now, ttl),
                    Some((bi, bd, bt)) => {
                        &&& bi < i
                        &&& is_candidate(c, sc, s[bi as int].0, q@, now, ttl)
                        &&& bd == distance_of(c, s[bi as int].0, q@)
                        &&& bt == entry_of(c, s[bi as int].0).timestamp
                        &&& forall|j: int|
                            0 <= j < i && is_candidate(c, sc, #[trigger] s[j].0, q@, now, ttl)
                                ==> !nearer(c, s[j].0, s[bi as int].0, q@)
                        &&& forall|j: int|
                            0 <= j < bi && is_candidate(c, sc, #[trigger] s[j].0, q@, now, ttl)
                                ==> nearer(c, s[bi as int].0, s[j].0, q@)
                    },
                },
            decreases es@.len() - i,
        {
            let ghost k = s[i as int].0;
            assert(s[i as int] == (es@[i as int].0@, es@[i as int].1@));
            assert(c.contains_key(k) && c[k] == es@[i as int].1@);
            match ImageValue::from_bytes(es[i].1.as_slice()) {
                None => {},
                Some(e) => {
                    if now as i128 - e.timestamp as i128 > ttl as i128 {
                        let ghost before = stale@;
                        stale.push(es[i].0.clone());
                        proof {
                            assert(stale@[before.len() as int]@ == k);
                            assert forall|kk: Seq<u8>|
                                key_set(before, before.len() as int).contains(kk) implies key_set(
                                stale@,
                                stale@.len() as int,
                            ).contains(kk) by {
                                let m = choose|m: int|
                                    0 <= m < before.len() && (#[trigger] before[m])@ == kk;
                                assert(stale@[m] == before[m]);
                            }
                            assert(key_set(stale@, stale@.len() as int).contains(k));
                        }
                    } else if e.hash.as_str().as_bytes().len() <= MAX_HASH_TEXT {
                        match hash_bits(e.hash.as_str()) {
                            None => {},
                            Some(bits) => {
                                if bits.len() == q.len() {
                                    let d = hamming_distance(bits.as_slice(), q.as_slice());
                                    let better = match best {
                                        None => true,
                                        Some((_, bd, bt)) => d < bd || (d == bd && e.timestamp > bt),
                                    };
                                    if better {
                                        best = Some((i, d, e.timestamp));
                                    }
                                }
                            },
                        }
                    }
                },
            }
            i = i + 1;
        }
        proof {
            assert forall|kk: Seq<u8>|
                expired_key(c, sc, kk, now, ttl) implies key_set(
                stale@,
                stale@.len() as int,
            ).contains(kk) by {
                assert(c.contains_key(kk) && is_prefix(image_prefix(sc), kk));
                let j = choose|j: int| 0 <= j < s.len() && s[j].0 == kk;
            }
            assert(key_set(stale@, stale@.len() as int) =~= expired_keys(c, sc, now, ttl));
        }
        // Retire the expired entries first, so that a registration under the
        // key of one of them survives.
        if !cfg.dry_run {
            match self.evict_keys(&stale) {
                Ok(()) => {},
                Err(e) => {
                    return Err(e);
                },
            }
        }
        assert(self.contents() == after_eviction(c, sc, now, *cfg));
        let ghost hit = match best {
            Some((_, bd, _)) => bd < cfg.similarity_threshold,
            None => false,
        };
        proof {
            if is_hit(c, sc, q@, now, *cfg) {
                let kk = choose|kk: Seq<u8>|
                    #[trigger] is_candidate(c, sc, kk, q@, now, cfg.ttl_seconds) && distance_of(
                        c,
                        kk,
                        q@,
                    ) < cfg.similarity_threshold;
                let j = choose|j: int| 0 <= j < s.len() && s[j].0 == kk;
                assert(is_candidate(c, sc, s[j].0, q@, now, ttl));
                assert(hit);
            }
            match best {
                Some((bi, bd, bt)) => {
                    let wk = s[bi as int].0;
                    assert forall|k2: Seq<u8>|
                        #[trigger] is_winner(c, sc, k2, q@, now, ttl) && k2 != wk implies lex_lt(
                        wk,
                        k2,
                    ) by {
                        let j = choose|j: int| 0 <= j < s.len() && s[j].0 == k2;
                        assert(is_candidate(c, sc, s[j].0, q@, now, ttl));
                        if j < bi {
                            assert(nearer(c, wk, k2, q@));
                        }
                        assert(j != bi);
                    }
                    assert forall|k2: Seq<u8>|
                        #[trigger] is_candidate(c, sc, k2, q@, now, ttl) implies !nearer(
                        c,
                        k2,
                        wk,
                        q@,
                    ) by {
                        let j = choose|j: int| 0 <= j < s.len() && s[j].0 == k2;
                        assert(is_candidate(c, sc, s[j].0, q@, now, ttl));
                    }
                    assert(is_winner(c, sc, wk, q@, now, ttl));
                },
                None => {},
            }
        }
        match best {
            Some((bi, bd, _)) => {
                if bd < cfg.similarity_threshold {
                    let ghost wk = s[bi as int].0;
                    assert(s[bi as int] == (es@[bi as int].0@, es@[bi as int].1@));
                    // The winner read during the scan, so it reads again here.
                    let e = match ImageValue::from_bytes(es[bi].1.as_slice()) {
                        Some(e) => e,
                        None => {
                            return Err(StoreError::Io);
                        },
                    };
                    let url = e.url.clone();
                    let touched = ImageValue { hash: e.hash, url: e.url, timestamp: now };
                    let v = touched.to_bytes();
                    match self.put(es[bi].0.as_slice(), v.as_slice()) {
                        Ok(()) => {},
                        Err(e) => {
                            return Err(e);
                        },
                    }
                    proof {
                        assert(is_hit(c, sc, q@, now, *cfg));
                        assert(touched.model() == ImageModel { timestamp: now, ..entry_of(c, wk) });
                        assert(is_winner(c, sc, wk, q@, now, cfg.ttl_seconds));
                    }
                    return Ok(ImageMatch { url, hit: true, stale });
                }
            },
            None => {},
        }
        proof {
            assert(!is_hit(c, sc, q@, now, *cfg));
        }
        let entry = ImageValue {
            hash: hash.to_owned(),
            url: candidate.to_owned(),
            timestamp: now,
        };
        let v = entry.to_bytes();
        let tail = str_to_bytes(hash);
        let k = key_bytes(StoreKind::Images, scope, tail.as_slice());
        match self.put(k.as_slice(), v.as_slice()) {
            Ok(()) => {},
            Err(e) => {
                return Err(e);
            },
        }
        Ok(ImageMatch { url: candidate.to_owned(), hit: false, stale })
    }
}

} // verus!
