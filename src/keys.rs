//! Store keys.
//!
//! Every key reads `{kind}/{scope}/{tail}`: a three-letter tag for the kind
//! of record, the scope written as lowercase hexadecimal of its UTF-8 bytes,
//! and a tail that names the record inside the scope. Hexadecimal never holds
//! a `/`, so the prefix `{kind}/{scope}/` selects one scope and no other.
use crate::codec::{i64_bytes, push_raw, str_bytes, str_to_bytes, i64_to_bytes};
use vstd::prelude::*;
use vstd::utf8::*;

verus! {

/// The three kinds of records that share the store.
#[derive(Clone, Copy, Debug, PartialEq, Eq, Structural)]
pub enum StoreKind {
    Messages,
    Images,
    Users,
}

pub open spec fn kind_tag(k: StoreKind) -> Seq<u8> {
    match k {
        StoreKind::Messages => seq![109u8, 115u8, 103u8],
        StoreKind::Images => seq![105u8, 109u8, 103u8],
        StoreKind::Users => seq![117u8, 115u8, 114u8],
    }
}

pub open spec fn hex_digit(n: int) -> u8 {
    if n < 10 {
        (48 + n) as u8
    } else {
        (87 + n) as u8
    }
}

/// Lowercase hexadecimal of `s`, two digits per byte.
pub open spec fn hex(s: Seq<u8>) -> Seq<u8> {
    Seq::new(
        2 * s.len(),
        |i: int|
            if i % 2 == 0 {
                hex_digit(s[i / 2] as int / 16)
            } else {
                hex_digit(s[i / 2] as int % 16)
            },
    )
}

/// `{kind}/{scope}/`: the start shared by every key of one kind in one scope.
pub open spec fn scope_prefix(k: StoreKind, scope: Seq<char>) -> Seq<u8> {
    kind_tag(k) + seq![47u8] + hex(str_bytes(scope)) + seq![47u8]
}

/// The key of the record named `tail` of kind `k` in `scope`.
pub open spec fn store_key(k: StoreKind, scope: Seq<char>, tail: Seq<u8>) -> Seq<u8> {
    scope_prefix(k, scope) + tail
}

pub open spec fn is_prefix(p: Seq<u8>, b: Seq<u8>) -> bool {
    p.len() <= b.len() && b.subrange(0, p.len() as int) == p
}

pub open spec fn message_key_bytes(scope: Seq<char>, url: Seq<char>) -> Seq<u8> {
    store_key(StoreKind::Messages, scope, str_bytes(url))
}

pub open spec fn image_key_bytes(scope: Seq<char>, hash: Seq<char>) -> Seq<u8> {
    store_key(StoreKind::Images, scope, str_bytes(hash))
}

pub open spec fn user_key_bytes(scope: Seq<char>, user_id: i64) -> Seq<u8> {
    store_key(StoreKind::Users, scope, i64_bytes(user_id))
}

proof fn lemma_hex_digit_injective(a: int, b: int)
    requires
        0 <= a < 16,
        0 <= b < 16,
        hex_digit(a) == hex_digit(b),
    ensures
        a == b,
{
}

proof fn lemma_hex_at(s: Seq<u8>, j: int)
    requires
        0 <= j < s.len(),
    ensures
        hex(s)[2 * j] == hex_digit(s[j] as int / 16),
        hex(s)[2 * j + 1] == hex_digit(s[j] as int % 16),
        0 <= s[j] as int / 16 < 16,
        s[j] == 16 * (s[j] as int / 16) + s[j] as int % 16,
{
    let e = 2 * j;
    let o = 2 * j + 1;
    assert(e / 2 == j && e % 2 == 0);
    assert(o / 2 == j && o % 2 == 1);
    assert(e < hex(s).len() && o < hex(s).len());
}

proof fn lemma_hex_injective(a: Seq<u8>, b: Seq<u8>)
    requires
        hex(a) == hex(b),
    ensures
        a == b,
{
    assert(hex(a).len() == 2 * a.len() && hex(b).len() == 2 * b.len());
    assert(a.len() == b.len());
    assert forall|j: int| 0 <= j < a.len() implies a[j] == b[j] by {
        lemma_hex_at(a, j);
        lemma_hex_at(b, j);
        lemma_hex_digit_injective(a[j] as int / 16, b[j] as int / 16);
        lemma_hex_digit_injective(a[j] as int % 16, b[j] as int % 16);
    }
    assert(a =~= b);
}

proof fn lemma_hex_has_no_slash(s: Seq<u8>, i: int)
    requires
        0 <= i < hex(s).len(),
    ensures
        hex(s)[i] != 47u8,
{
}

proof fn lemma_str_bytes_injective(a: Seq<char>, b: Seq<char>)
    requires
        str_bytes(a) == str_bytes(b),
    ensures
        a == b,
{
    encode_utf8_decode_utf8(a);
    encode_utf8_decode_utf8(b);
}

/// A key of kind `k1` in scope `s1` starts with the prefix of kind `k2` and
/// scope `s2` exactly when the kinds and the scopes are the same: a prefix
/// scan over one scope never meets a record of another.
pub proof fn lemma_scope_isolation(
    k1: StoreKind,
    s1: Seq<char>,
    tail: Seq<u8>,
    k2: StoreKind,
    s2: Seq<char>,
)
    ensures
        is_prefix(scope_prefix(k2, s2), store_key(k1, s1, tail)) <==> (k1 == k2 && s1 == s2),
{
    let key = store_key(k1, s1, tail);
    let p = scope_prefix(k2, s2);
    let h1 = hex(str_bytes(s1));
    let h2 = hex(str_bytes(s2));
    if k1 == k2 && s1 == s2 {
        assert(key.subrange(0, p.len() as int) =~= p);
    }
    if is_prefix(p, key) {
        assert(key.subrange(0, p.len() as int) == p);
        assert(key[0] == p[0] && key[1] == p[1] && key[2] == p[2]);
        assert(k1 == k2);
        if h1.len() < h2.len() {
            let i: int = 4 + h1.len() as int;
            assert(key[i] == 47u8);
            assert(p[i] == h2[i - 4]);
            lemma_hex_has_no_slash(str_bytes(s2), i - 4);
            assert(key[i] == p[i]);
        } else if h1.len() > h2.len() {
            let i: int = 4 + h2.len() as int;
            assert(p[i] == 47u8);
            assert(key[i] == h1[i - 4]);
            lemma_hex_has_no_slash(str_bytes(s1), i - 4);
            assert(key[i] == p[i]);
        }
        assert(h1.len() == h2.len());
        assert forall|i: int| 0 <= i < h1.len() implies h1[i] == h2[i] by {
            assert(key[4 + i] == p[4 + i]);
        }
        assert(h1 =~= h2);
        lemma_hex_injective(str_bytes(s1), str_bytes(s2));
        lemma_str_bytes_injective(s1, s2);
    }
}

/// Distinct records never share a key: the kind, the scope and the tail can
/// all be read back from it.
pub proof fn lemma_key_injective(
    k1: StoreKind,
    s1: Seq<char>,
    t1: Seq<u8>,
    k2: StoreKind,
    s2: Seq<char>,
    t2: Seq<u8>,
)
    requires
        store_key(k1, s1, t1) == store_key(k2, s2, t2),
    ensures
        k1 == k2,
        s1 == s2,
        t1 == t2,
{
    let key = store_key(k1, s1, t1);
    let pre1 = scope_prefix(k1, s1);
    assert(key.subrange(0, pre1.len() as int) =~= pre1);
    lemma_scope_isolation(k2, s2, t2, k1, s1);
    assert(key.subrange(pre1.len() as int, key.len() as int) =~= t1);
    assert(store_key(k2, s2, t2).subrange(pre1.len() as int, key.len() as int) =~= t2);
}

/// Appends the hexadecimal digits of `s` to `out`.
fn push_hex(out: &mut Vec<u8>, s: &[u8])
    ensures
        final(out)@ == old(out)@ + hex(s@),
{
    let ghost start = out@;
    let mut i: usize = 0;
    while i < s.len()
        invariant
            0 <= i <= s@.len(),
            out@ == start + hex(s@.subrange(0, i as int)),
        decreases s@.len() - i,
    {
        let hi: u8 = s[i] / 16;
        let lo: u8 = s[i] % 16;
        let dh: u8 = if hi < 10 { 48 + hi } else { 87 + hi };
        let dl: u8 = if lo < 10 { 48 + lo } else { 87 + lo };
        out.push(dh);
        out.push(dl);
        proof {
            let a = s@.subrange(0, i as int);
            let b = s@.subrange(0, i + 1);
            assert forall|j: int| 0 <= j < 2 * i implies #[trigger] hex(b)[j] == hex(a)[j] by {
                assert(b[j / 2] == a[j / 2]);
            }
            assert(hex(b)[2 * i] == dh) by {
                assert((2 * i as int) / 2 == i && (2 * i as int) % 2 == 0);
            }
            assert(hex(b)[2 * i + 1] == dl) by {
                assert((2 * i as int + 1) / 2 == i && (2 * i as int + 1) % 2 == 1);
            }
            assert(out@ =~= start + hex(b));
        }
        i = i + 1;
    }
    assert(s@.subrange(0, s@.len() as int) =~= s@);
}

fn push_tag(out: &mut Vec<u8>, k: StoreKind)
    ensures
        final(out)@ == old(out)@ + kind_tag(k),
{
    let ghost start = out@;
    match k {
        StoreKind::Messages => {
            out.push(109u8);
            out.push(115u8);
            out.push(103u8);
        },
        StoreKind::Images => {
            out.push(105u8);
            out.push(109u8);
            out.push(103u8);
        },
        StoreKind::Users => {
            out.push(117u8);
            out.push(115u8);
            out.push(114u8);
        },
    }
    assert(out@ =~= start + kind_tag(k));
}

/// The prefix that every key of kind `k` in `scope` starts with.
pub fn scope_prefix_bytes(k: StoreKind, scope: &str) -> (r: Vec<u8>)
    ensures
        r@ == scope_prefix(k, scope@),
{
    let mut out: Vec<u8> = Vec::new();
    push_tag(&mut out, k);
    out.push(47u8);
    let sb = str_to_bytes(scope);
    push_hex(&mut out, sb.as_slice());
    out.push(47u8);
    assert(out@ =~= scope_prefix(k, scope@));
    out
}

/// The key of the record named `tail` of kind `k` in `scope`. It depends on
/// these three values alone.
pub fn key_bytes(k: StoreKind, scope: &str, tail: &[u8]) -> (r: Vec<u8>)
    ensures
        r@ == store_key(k, scope@, tail@),
{
    let mut out = scope_prefix_bytes(k, scope);
    push_raw(&mut out, tail);
    out
}

/// Names an occurrence record: the canonical identity of a piece of content
/// in a scope.
pub struct MessageKey {
    pub chat_id: String,
    pub url: String,
}

/// Names a perceptual-index entry: a hash in a scope.
pub struct ImageKey {
    pub chat_id: String,
    pub hash_str: String,
}

/// Names a user counter: a user in a scope.
pub struct UserKey {
    pub chat_id: String,
    pub user_id: i64,
}

impl MessageKey {
    pub fn to_bytes(&self) -> (r: Vec<u8>)
        ensures
            r@ == message_key_bytes(self.chat_id@, self.url@),
    {
        let tail = str_to_bytes(self.url.as_str());
        key_bytes(StoreKind::Messages, self.chat_id.as_str(), tail.as_slice())
    }
}

impl ImageKey {
    pub fn to_bytes(&self) -> (r: Vec<u8>)
        ensures
            r@ == image_key_bytes(self.chat_id@, self.hash_str@),
    {
        let tail = str_to_bytes(self.hash_str.as_str());
        key_bytes(StoreKind::Images, self.chat_id.as_str(), tail.as_slice())
    }
}

impl UserKey {
    pub fn to_bytes(&self) -> (r: Vec<u8>)
        ensures
            r@ == user_key_bytes(self.chat_id@, self.user_id),
    {
        let tail = i64_to_bytes(self.user_id);
        key_bytes(StoreKind::Users, self.chat_id.as_str(), tail.as_slice())
    }
}

} // verus!
