//! The records kept in the store, their mathematical models, and how each is
//! laid out as bytes.
use crate::codec::{
    be8, frame, i64_bytes, lemma_take_frame, lemma_i64_round_trip, lemma_opt_i64_round_trip,
    lemma_opt_str_round_trip, lemma_str_round_trip, lemma_u64_round_trip, opt_i64_bytes,
    opt_str_bytes, parse_i64, parse_opt_i64, parse_opt_str, parse_str, parse_u64, read_frame,
    str_bytes, take_frame, push_frame, str_to_bytes, u64_to_bytes, opt_str_to_bytes,
    opt_i64_to_bytes, i64_to_bytes, bytes_to_str, bytes_to_u64, bytes_to_opt_str,
    bytes_to_opt_i64, bytes_to_i64,
};
use vstd::prelude::*;

verus! {

/// The frames of `fs`, one after the other.
pub open spec fn join(fs: Seq<Seq<u8>>) -> Seq<u8>
    decreases fs.len(),
{
    if fs.len() == 0 {
        Seq::empty()
    } else {
        frame(fs[0]) + join(fs.drop_first())
    }
}

/// Reads exactly `n` frames from `pos` to the end of `b`.
pub open spec fn frames_from(b: Seq<u8>, pos: int, n: nat) -> Option<Seq<Seq<u8>>>
    decreases n,
{
    if n == 0 {
        if pos == b.len() {
            Some(Seq::empty())
        } else {
            None
        }
    } else {
        match take_frame(b, pos) {
            Some((f, e)) => match frames_from(b, e, (n - 1) as nat) {
                Some(r) => Some(seq![f] + r),
                None => None,
            },
            None => None,
        }
    }
}

pub open spec fn bytes_views(v: Seq<Vec<u8>>) -> Seq<Seq<u8>> {
    v.map_values(|x: Vec<u8>| x@)
}

proof fn lemma_frames_round_trip(pre: Seq<u8>, fs: Seq<Seq<u8>>)
    requires
        forall|i: int| 0 <= i < fs.len() ==> (#[trigger] fs[i]).len() <= u64::MAX,
    ensures
        frames_from(pre + join(fs), pre.len() as int, fs.len()) == Some(fs),
    decreases fs.len(),
{
    let b = pre + join(fs);
    if fs.len() == 0 {
        assert(b =~= pre);
        assert(fs =~= Seq::<Seq<u8>>::empty());
    } else {
        let f = fs[0];
        let rest = fs.drop_first();
        let jr = join(rest);
        assert(join(fs) == frame(f) + jr);
        let pre2 = pre + frame(f);
        assert(b =~= pre + frame(f) + jr);
        assert(b =~= pre2 + jr);
        lemma_take_frame(pre, f, jr);
        assert(take_frame(b, pre.len() as int) == Some((f, pre2.len() as int)));
        assert forall|i: int| 0 <= i < rest.len() implies (#[trigger] rest[i]).len() <= u64::MAX by {
            assert(rest[i] == fs[i + 1]);
        }
        lemma_frames_round_trip(pre2, rest);
        assert(frames_from(b, pre2.len() as int, rest.len()) == Some(rest));
        assert(seq![f] + rest =~= fs);
    }
}

/// Decoding what was encoded gives the frames back.
pub proof fn lemma_join_round_trip(fs: Seq<Seq<u8>>)
    requires
        forall|i: int| 0 <= i < fs.len() ==> (#[trigger] fs[i]).len() <= u64::MAX,
    ensures
        frames_from(join(fs), 0, fs.len()) == Some(fs),
{
    lemma_frames_round_trip(Seq::empty(), fs);
    assert(Seq::<u8>::empty() + join(fs) =~= join(fs));
}

proof fn lemma_join_cons(f: Seq<u8>, rest: Seq<Seq<u8>>)
    ensures
        join(seq![f] + rest) == frame(f) + join(rest),
{
    let s = seq![f] + rest;
    assert(s.drop_first() =~= rest);
    assert(s[0] == f);
}

proof fn lemma_join2(a: Seq<u8>, b: Seq<u8>)
    ensures
        join(seq![a, b]) == frame(a) + frame(b),
{
    lemma_join_cons(b, Seq::empty());
    assert(seq![b] + Seq::<Seq<u8>>::empty() =~= seq![b]);
    assert(join(Seq::<Seq<u8>>::empty()) == Seq::<u8>::empty());
    assert(frame(b) + Seq::<u8>::empty() =~= frame(b));
    lemma_join_cons(a, seq![b]);
    assert(seq![a] + seq![b] =~= seq![a, b]);
}

proof fn lemma_join3(a: Seq<u8>, b: Seq<u8>, c: Seq<u8>)
    ensures
        join(seq![a, b, c]) == frame(a) + frame(b) + frame(c),
{
    lemma_join2(b, c);
    lemma_join_cons(a, seq![b, c]);
    assert(seq![a] + seq![b, c] =~= seq![a, b, c]);
    assert(frame(a) + (frame(b) + frame(c)) =~= frame(a) + frame(b) + frame(c));
}

proof fn lemma_join4(a: Seq<u8>, b: Seq<u8>, c: Seq<u8>, d: Seq<u8>)
    ensures
        join(seq![a, b, c, d]) == frame(a) + frame(b) + frame(c) + frame(d),
{
    lemma_join3(b, c, d);
    lemma_join_cons(a, seq![b, c, d]);
    assert(seq![a] + seq![b, c, d] =~= seq![a, b, c, d]);
    assert(frame(a) + (frame(b) + frame(c) + frame(d)) =~= frame(a) + frame(b) + frame(c)
        + frame(d));
}

proof fn lemma_frames_len(b: Seq<u8>, pos: int, n: nat)
    ensures
        frames_from(b, pos, n) matches Some(r) ==> r.len() == n,
    decreases n,
{
    if n > 0 {
        match take_frame(b, pos) {
            Some((f, e)) => lemma_frames_len(b, e, (n - 1) as nat),
            None => {},
        }
    }
}

/// Takes the first frame out of `v`.
fn take_first(v: &mut Vec<Vec<u8>>) -> (r: Vec<u8>)
    requires
        old(v)@.len() > 0,
    ensures
        r@ == bytes_views(old(v)@)[0],
        bytes_views(final(v)@) == bytes_views(old(v)@).drop_first(),
        final(v)@.len() == old(v)@.len() - 1,
{
    let r = v.remove(0);
    assert(bytes_views(v@) =~= bytes_views(old(v)@).drop_first());
    r
}

/// Reads exactly `n` frames from `b`.
pub fn read_frames(b: &[u8], n: usize) -> (r: Option<Vec<Vec<u8>>>)
    ensures
        match r {
            Some(v) => frames_from(b@, 0, n as nat) == Some(bytes_views(v@)),
            None => frames_from(b@, 0, n as nat) is None,
        },
{
    let mut acc: Vec<Vec<u8>> = Vec::new();
    let mut pos: usize = 0;
    let mut k: usize = 0;
    while k < n
        invariant
            k <= n,
            acc@.len() == k,
            frames_from(b@, 0, n as nat) == match frames_from(b@, pos as int, (n - k) as nat) {
                Some(rest) => Some(bytes_views(acc@) + rest),
                None => None,
            },
        decreases n - k,
    {
        match read_frame(b, pos) {
            None => {
                return None;
            },
            Some((f, e)) => {
                proof {
                    let m = (n - k) as nat;
                    match frames_from(b@, e as int, (m - 1) as nat) {
                        Some(rest) => {
                            assert(bytes_views(acc@.push(f)) =~= bytes_views(acc@) + seq![f@]);
                            assert(bytes_views(acc@) + (seq![f@] + rest) =~= bytes_views(
                                acc@.push(f),
                            ) + rest);
                        },
                        None => {},
                    }
                }
                acc.push(f);
                pos = e;
                k = k + 1;
            },
        }
    }
    if pos == b.len() {
        assert(bytes_views(acc@) + Seq::<Seq<u8>>::empty() =~= bytes_views(acc@));
        Some(acc)
    } else {
        None
    }
}

/// An occurrence record: a piece of content, how often it was seen in its
/// scope, where it was first seen and who first posted it.
pub struct MessageInfo {
    pub url: String,
    pub count: u64,
    pub link: Option<String>,
    pub user_id: Option<i64>,
}

pub struct InfoModel {
    pub url: Seq<char>,
    pub count: u64,
    pub link: Option<Seq<char>>,
    pub user_id: Option<i64>,
}

pub open spec fn opt_str_view(s: Option<String>) -> Option<Seq<char>> {
    match s {
        Some(t) => Some(t@),
        None => None,
    }
}

impl MessageInfo {
    pub open spec fn model(&self) -> InfoModel {
        InfoModel {
            url: self.url@,
            count: self.count,
            link: opt_str_view(self.link),
            user_id: self.user_id,
        }
    }
}

pub open spec fn encode_info(m: InfoModel) -> Seq<u8> {
    join(seq![str_bytes(m.url), be8(m.count), opt_str_bytes(m.link), opt_i64_bytes(m.user_id)])
}

pub open spec fn decode_info(b: Seq<u8>) -> Option<InfoModel> {
    match frames_from(b, 0, 4) {
        Some(fs) => match (
            parse_str(fs[0]),
            parse_u64(fs[1]),
            parse_opt_str(fs[2]),
            parse_opt_i64(fs[3]),
        ) {
            (Some(url), Some(count), Some(link), Some(user_id)) => Some(
                InfoModel { url, count, link, user_id },
            ),
            _ => None,
        },
        None => None,
    }
}

impl MessageInfo {
    pub fn to_bytes(&self) -> (r: Vec<u8>)
        ensures
            r@ == encode_info(self.model()),
    {
        let a = str_to_bytes(self.url.as_str());
        let b = u64_to_bytes(self.count);
        let c = opt_str_to_bytes(&self.link);
        let d = opt_i64_to_bytes(self.user_id);
        let mut out: Vec<u8> = Vec::new();
        push_frame(&mut out, a.as_slice());
        push_frame(&mut out, b.as_slice());
        push_frame(&mut out, c.as_slice());
        push_frame(&mut out, d.as_slice());
        proof {
            lemma_join4(a@, b@, c@, d@);
            assert(out@ =~= frame(a@) + frame(b@) + frame(c@) + frame(d@));
        }
        out
    }

    pub fn from_bytes(b: &[u8]) -> (r: Option<MessageInfo>)
        ensures
            match r {
                Some(m) => decode_info(b@) == Some(m.model()),
                None => decode_info(b@) is None,
            },
    {
        let mut v = match read_frames(b, 4) {
            Some(v) => v,
            None => {
                return None;
            },
        };
        proof {
            lemma_frames_len(b@, 0, 4);
        }
        let ghost fs = bytes_views(v@);
        assert(v@.len() == fs.len());
        let f0 = take_first(&mut v);
        let f1 = take_first(&mut v);
        let f2 = take_first(&mut v);
        let f3 = take_first(&mut v);
        assert(f0@ == fs[0] && f1@ == fs[1] && f2@ == fs[2] && f3@ == fs[3]);
        let url = match bytes_to_str(f0) {
            Some(x) => x,
            None => {
                return None;
            },
        };
        let count = match bytes_to_u64(&f1) {
            Some(x) => x,
            None => {
                return None;
            },
        };
        let link = match bytes_to_opt_str(&f2) {
            Some(x) => x,
            None => {
                return None;
            },
        };
        let user_id = match bytes_to_opt_i64(&f3) {
            Some(x) => x,
            None => {
                return None;
            },
        };
        Some(MessageInfo { url, count, link, user_id })
    }
}

pub proof fn lemma_info_round_trip(m: InfoModel)
    requires
        str_bytes(m.url).len() <= u64::MAX,
        opt_str_bytes(m.link).len() <= u64::MAX,
    ensures
        decode_info(encode_info(m)) == Some(m),
{
    let fs = seq![str_bytes(m.url), be8(m.count), opt_str_bytes(m.link), opt_i64_bytes(m.user_id)];
    assert(opt_i64_bytes(m.user_id).len() <= 9);
    assert forall|i: int| 0 <= i < fs.len() implies (#[trigger] fs[i]).len() <= u64::MAX by {}
    lemma_join_round_trip(fs);
    assert(frames_from(encode_info(m), 0, 4) == Some(fs));
    lemma_str_round_trip(m.url);
    lemma_u64_round_trip(m.count);
    lemma_opt_str_round_trip(m.link);
    lemma_opt_i64_round_trip(m.user_id);
}

/// A perceptual-index entry: the hash, the identity it stands for, and when
/// it was last touched, in seconds.
pub struct ImageValue {
    pub hash: String,
    pub url: String,
    pub timestamp: i64,
}

pub struct ImageModel {
    pub hash: Seq<char>,
    pub url: Seq<char>,
    pub timestamp: i64,
}

impl ImageValue {
    pub open spec fn model(&self) -> ImageModel {
        ImageModel { hash: self.hash@, url: self.url@, timestamp: self.timestamp }
    }
}

pub open spec fn encode_image(m: ImageModel) -> Seq<u8> {
    join(seq![str_bytes(m.hash), str_bytes(m.url), i64_bytes(m.timestamp)])
}

pub open spec fn decode_image(b: Seq<u8>) -> Option<ImageModel> {
    match frames_from(b, 0, 3) {
        Some(fs) => match (parse_str(fs[0]), parse_str(fs[1]), parse_i64(fs[2])) {
            (Some(hash), Some(url), Some(timestamp)) => Some(ImageModel { hash, url, timestamp }),
            _ => None,
        },
        None => None,
    }
}

impl ImageValue {
    pub fn to_bytes(&self) -> (r: Vec<u8>)
        ensures
            r@ == encode_image(self.model()),
    {
        let a = str_to_bytes(self.hash.as_str());
        let b = str_to_bytes(self.url.as_str());
        let c = i64_to_bytes(self.timestamp);
        let mut out: Vec<u8> = Vec::new();
        push_frame(&mut out, a.as_slice());
        push_frame(&mut out, b.as_slice());
        push_frame(&mut out, c.as_slice());
        proof {
            lemma_join3(a@, b@, c@);
            assert(out@ =~= frame(a@) + frame(b@) + frame(c@));
        }
        out
    }

    pub fn from_bytes(b: &[u8]) -> (r: Option<ImageValue>)
        ensures
            match r {
                Some(m) => decode_image(b@) == Some(m.model()),
                None => decode_image(b@) is None,
            },
    {
        let mut v = match read_frames(b, 3) {
            Some(v) => v,
            None => {
                return None;
            },
        };
        proof {
            lemma_frames_len(b@, 0, 3);
        }
        let ghost fs = bytes_views(v@);
        assert(v@.len() == fs.len());
        let f0 = take_first(&mut v);
        let f1 = take_first(&mut v);
        let f2 = take_first(&mut v);
        assert(f0@ == fs[0] && f1@ == fs[1] && f2@ == fs[2]);
        let hash = match bytes_to_str(f0) {
            Some(x) => x,
            None => {
                return None;
            },
        };
        let url = match bytes_to_str(f1) {
            Some(x) => x,
            None => {
                return None;
            },
        };
        let timestamp = match bytes_to_i64(&f2) {
            Some(x) => x,
            None => {
                return None;
            },
        };
        Some(ImageValue { hash, url, timestamp })
    }
}

pub proof fn lemma_image_round_trip(m: ImageModel)
    requires
        str_bytes(m.hash).len() <= u64::MAX,
        str_bytes(m.url).len() <= u64::MAX,
    ensures
        decode_image(encode_image(m)) == Some(m),
{
    let fs = seq![str_bytes(m.hash), str_bytes(m.url), i64_bytes(m.timestamp)];
    assert forall|i: int| 0 <= i < fs.len() implies (#[trigger] fs[i]).len() <= u64::MAX by {}
    lemma_join_round_trip(fs);
    assert(frames_from(encode_image(m), 0, 3) == Some(fs));
    lemma_str_round_trip(m.hash);
    lemma_str_round_trip(m.url);
    lemma_i64_round_trip(m.timestamp);
}

/// A user counter: the latest display name and the number of repeats.
pub struct TopUserValue {
    pub username: String,
    pub count: u64,
}

pub struct UserModel {
    pub username: Seq<char>,
    pub count: u64,
}

impl TopUserValue {
    pub open spec fn model(&self) -> UserModel {
        UserModel { username: self.username@, count: self.count }
    }
}

pub open spec fn encode_user(m: UserModel) -> Seq<u8> {
    join(seq![str_bytes(m.username), be8(m.count)])
}

pub open spec fn decode_user(b: Seq<u8>) -> Option<UserModel> {
    match frames_from(b, 0, 2) {
        Some(fs) => match (parse_str(fs[0]), parse_u64(fs[1])) {
            (Some(username), Some(count)) => Some(UserModel { username, count }),
            _ => None,
        },
        None => None,
    }
}

impl TopUserValue {
    pub fn to_bytes(&self) -> (r: Vec<u8>)
        ensures
            r@ == encode_user(self.model()),
    {
        let a = str_to_bytes(self.username.as_str());
        let b = u64_to_bytes(self.count);
        let mut out: Vec<u8> = Vec::new();
        push_frame(&mut out, a.as_slice());
        push_frame(&mut out, b.as_slice());
        proof {
            lemma_join2(a@, b@);
            assert(out@ =~= frame(a@) + frame(b@));
        }
        out
    }

    pub fn from_bytes(b: &[u8]) -> (r: Option<TopUserValue>)
        ensures
            match r {
                Some(m) => decode_user(b@) == Some(m.model()),
                None => decode_user(b@) is None,
            },
    {
        let mut v = match read_frames(b, 2) {
            Some(v) => v,
            None => {
                return None;
            },
        };
        proof {
            lemma_frames_len(b@, 0, 2);
        }
        let ghost fs = bytes_views(v@);
        assert(v@.len() == fs.len());
        let f0 = take_first(&mut v);
        let f1 = take_first(&mut v);
        assert(f0@ == fs[0] && f1@ == fs[1]);
        let username = match bytes_to_str(f0) {
            Some(x) => x,
            None => {
                return None;
            },
        };
        let count = match bytes_to_u64(&f1) {
            Some(x) => x,
            None => {
                return None;
            },
        };
        Some(TopUserValue { username, count })
    }
}

pub proof fn lemma_user_round_trip(m: UserModel)
    requires
        str_bytes(m.username).len() <= u64::MAX,
    ensures
        decode_user(encode_user(m)) == Some(m),
{
    let fs = seq![str_bytes(m.username), be8(m.count)];
    assert forall|i: int| 0 <= i < fs.len() implies (#[trigger] fs[i]).len() <= u64::MAX by {}
    lemma_join_round_trip(fs);
    assert(frames_from(encode_user(m), 0, 2) == Some(fs));
    lemma_str_round_trip(m.username);
    lemma_u64_round_trip(m.count);
}

} // verus!
