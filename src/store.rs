//! The persistent substrate: an ordered byte-keyed tree with point get, put
//! and delete and a prefix scan.
use crate::keys::is_prefix;
use vstd::prelude::*;

verus! {

#[verifier::external_type_specification]
#[verifier::external_body]
pub struct ExTree(sled::Tree);

#[verifier::external_type_specification]
#[verifier::external_body]
pub struct ExSledError(sled::Error);

/// What a tree holds: its keys and their values.
pub uninterp spec fn tree_contents(t: sled::Tree) -> Map<Seq<u8>, Seq<u8>>;

/// Strict lexicographic order on byte strings.
pub open spec fn lex_lt(a: Seq<u8>, b: Seq<u8>) -> bool
    decreases a.len(),
{
    if b.len() == 0 {
        false
    } else if a.len() == 0 {
        true
    } else if a[0] != b[0] {
        a[0] < b[0]
    } else {
        lex_lt(a.drop_first(), b.drop_first())
    }
}

/// The key and value bytes of scanned pairs.
pub open spec fn pairs_view(v: Seq<(Vec<u8>, Vec<u8>)>) -> Seq<(Seq<u8>, Seq<u8>)> {
    v.map_values(|p: (Vec<u8>, Vec<u8>)| (p.0@, p.1@))
}

/// `s` lists, in ascending key order, exactly the pairs of `c` whose key
/// starts with `p`.
pub open spec fn is_prefix_scan(
    c: Map<Seq<u8>, Seq<u8>>,
    p: Seq<u8>,
    s: Seq<(Seq<u8>, Seq<u8>)>,
) -> bool {
    &&& forall|i: int|
        0 <= i < s.len() ==> is_prefix(p, #[trigger] s[i].0) && c.contains_key(s[i].0) && c[s[i].0]
            == s[i].1
    &&& forall|k: Seq<u8>|
        #![trigger c.contains_key(k)]
        c.contains_key(k) && is_prefix(p, k) ==> exists|i: int| 0 <= i < s.len() && s[i].0 == k
    &&& forall|i: int, j: int| 0 <= i < j < s.len() ==> lex_lt(#[trigger] s[i].0, #[trigger] s[j].0)
}

/// Relies on `sled::Tree::get`: the value stored under `key`, if any.
#[verifier::external_body]
fn tree_get(t: &sled::Tree, key: &[u8]) -> (r: Result<Option<Vec<u8>>, sled::Error>)
    ensures
        r matches Ok(v) ==> match v {
            Some(x) => tree_contents(*t).contains_key(key@) && tree_contents(*t)[key@] == x@,
            None => !tree_contents(*t).contains_key(key@),
        },
{
    t.get(key).map(|o| o.map(|v| v.to_vec()))
}

/// Relies on `sled::Tree::insert`: on success `key` holds `value` and nothing
/// else changed.
#[verifier::external_body]
fn tree_insert(t: &mut sled::Tree, key: &[u8], value: &[u8]) -> (r: Result<(), sled::Error>)
    ensures
        r is Ok ==> tree_contents(*final(t)) == tree_contents(*old(t)).insert(key@, value@),
{
    t.insert(key, value).map(|_| ())
}

/// Relies on `sled::Tree::remove`: on success `key` holds nothing and nothing
/// else changed.
#[verifier::external_body]
fn tree_remove(t: &mut sled::Tree, key: &[u8]) -> (r: Result<(), sled::Error>)
    ensures
        r is Ok ==> tree_contents(*final(t)) == tree_contents(*old(t)).remove(key@),
{
    t.remove(key).map(|_| ())
}

/// Relies on `sled::Tree::scan_prefix`: the pairs whose key starts with
/// `prefix`, in ascending key order; the first error of the walk stops it.
#[verifier::external_body]
fn tree_scan_prefix(t: &sled::Tree, prefix: &[u8]) -> (r: Result<
    Vec<(Vec<u8>, Vec<u8>)>,
    sled::Error,
>)
    ensures
        r matches Ok(v) ==> is_prefix_scan(tree_contents(*t), prefix@, pairs_view(v@)),
{
    t.scan_prefix(prefix).map(|e| e.map(|(k, v)| (k.to_vec(), v.to_vec()))).collect()
}

/// The ways an operation of the library can fail.
#[derive(Clone, Copy, Debug, PartialEq, Eq, Structural)]
pub enum StoreError {
    /// The substrate failed to read; nothing was changed.
    Io,
    /// The substrate failed to write. sled does not say what a failed write
    /// leaves behind, so the store is then in a state nothing here states.
    WriteIo,
    /// A stored value does not have the shape of its record.
    Decode,
    /// A perceptual hash string does not decode.
    HashDecode,
    /// The record to create exists already.
    AlreadyPresent,
    /// The record to update does not exist.
    Absent,
    /// A counter is at its largest value.
    Overflow,
}

/// The substrate. It owns its tree: nothing else may write to the tree while
/// it is held here, so that what is known of its contents stays true.
pub struct MyDB {
    db: sled::Tree,
}

impl MyDB {
    /// What the store holds.
    pub closed spec fn contents(&self) -> Map<Seq<u8>, Seq<u8>> {
        tree_contents(self.db)
    }

    pub fn new(db: sled::Tree) -> (r: MyDB)
        ensures
            r.contents() == tree_contents(db),
    {
        MyDB { db }
    }

    /// The value under `key`. A failure of the substrate is `Err(Io)`.
    pub fn get(&self, key: &[u8]) -> (r: Result<Option<Vec<u8>>, StoreError>)
        ensures
            r matches Ok(v) ==> match v {
                Some(x) => self.contents().contains_key(key@) && self.contents()[key@] == x@,
                None => !self.contents().contains_key(key@),
            },
            r matches Err(e) ==> e == StoreError::Io,
    {
        match tree_get(&self.db, key) {
            Ok(v) => Ok(v),
            Err(_) => Err(StoreError::Io),
        }
    }

    /// Stores `value` under `key`.
    pub fn put(&mut self, key: &[u8], value: &[u8]) -> (r: Result<(), StoreError>)
        ensures
            r is Ok ==> final(self).contents() == old(self).contents().insert(key@, value@),
            r matches Err(e) ==> e == StoreError::WriteIo,
    {
        match tree_insert(&mut self.db, key, value) {
            Ok(()) => Ok(()),
            Err(_) => Err(StoreError::WriteIo),
        }
    }

    /// Removes what is stored under `key`.
    pub fn delete(&mut self, key: &[u8]) -> (r: Result<(), StoreError>)
        ensures
            r is Ok ==> final(self).contents() == old(self).contents().remove(key@),
            r matches Err(e) ==> e == StoreError::WriteIo,
    {
        match tree_remove(&mut self.db, key) {
            Ok(()) => Ok(()),
            Err(_) => Err(StoreError::WriteIo),
        }
    }

    /// The pairs whose key starts with `prefix`, in ascending key order.
    pub fn scan_prefix(&self, prefix: &[u8]) -> (r: Result<Vec<(Vec<u8>, Vec<u8>)>, StoreError>)
        ensures
            r matches Ok(v) ==> is_prefix_scan(self.contents(), prefix@, pairs_view(v@)),
            r matches Err(e) ==> e == StoreError::Io,
    {
        match tree_scan_prefix(&self.db, prefix) {
            Ok(v) => Ok(v),
            Err(_) => Err(StoreError::Io),
        }
    }
}

} // verus!
