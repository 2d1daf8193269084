//! Byte layout of stored values.
//!
//! A stored value is a concatenation of frames. A frame is an eight-byte
//! big-endian length followed by that many bytes. Integers travel inside a
//! frame as their eight big-endian bytes.
use vstd::prelude::*;
use vstd::string::StringSliceAdditionalSpecFns;
use vstd::utf8::*;

verus! {

/// The eight big-endian bytes of `x`.
pub open spec fn be8(x: u64) -> Seq<u8> {
    seq![
        (x >> 56u64) as u8,
        (x >> 48u64) as u8,
        (x >> 40u64) as u8,
        (x >> 32u64) as u8,
        (x >> 24u64) as u8,
        (x >> 16u64) as u8,
        (x >> 8u64) as u8,
        x as u8,
    ]
}

/// The integer whose big-endian bytes start `b` at `pos`.
pub open spec fn read_be8(b: Seq<u8>, pos: int) -> u64 {
    (b[pos] as u64) << 56u64 | (b[pos + 1] as u64) << 48u64 | (b[pos + 2] as u64) << 40u64 | (
    b[pos + 3] as u64) << 32u64 | (b[pos + 4] as u64) << 24u64 | (b[pos + 5] as u64) << 16u64
        | (b[pos + 6] as u64) << 8u64 | (b[pos + 7] as u64)
}

/// A frame: the length of `f` and then `f`.
#[verifier::opaque]
pub open spec fn frame(f: Seq<u8>) -> Seq<u8> {
    be8(f.len() as u64) + f
}

/// Reads the frame that starts at `pos`: its contents and the position after it.
pub open spec fn take_frame(b: Seq<u8>, pos: int) -> Option<(Seq<u8>, int)> {
    if 0 <= pos && pos + 8 <= b.len() && pos + 8 + read_be8(b, pos) <= b.len() {
        let end = pos + 8 + read_be8(b, pos);
        Some((b.subrange(pos + 8, end), end))
    } else {
        None
    }
}

pub proof fn lemma_be8_round_trip(x: u64)
    ensures
        read_be8(be8(x), 0) == x,
{
    let b = be8(x);
    let b0 = (x >> 56u64) as u8;
    let b1 = (x >> 48u64) as u8;
    let b2 = (x >> 40u64) as u8;
    let b3 = (x >> 32u64) as u8;
    let b4 = (x >> 24u64) as u8;
    let b5 = (x >> 16u64) as u8;
    let b6 = (x >> 8u64) as u8;
    let b7 = x as u8;
    assert(b[0] == b0 && b[1] == b1 && b[2] == b2 && b[3] == b3);
    assert(b[4] == b4 && b[5] == b5 && b[6] == b6 && b[7] == b7);
    assert((((x >> 56u64) as u8) as u64) << 56u64 | (((x >> 48u64) as u8) as u64) << 48u64 | (((x
        >> 40u64) as u8) as u64) << 40u64 | (((x >> 32u64) as u8) as u64) << 32u64 | (((x
        >> 24u64) as u8) as u64) << 24u64 | (((x >> 16u64) as u8) as u64) << 16u64 | (((x
        >> 8u64) as u8) as u64) << 8u64 | ((x as u8) as u64) == x) by (bit_vector);
}

/// A frame placed after `pre` and before `rest` reads back as itself.
pub proof fn lemma_take_frame(pre: Seq<u8>, f: Seq<u8>, rest: Seq<u8>)
    requires
        f.len() <= u64::MAX,
    ensures
        take_frame(pre + frame(f) + rest, pre.len() as int) == Some(
            (f, pre.len() + 8 + f.len() as int),
        ),
        frame(f).len() == 8 + f.len(),
{
    reveal(frame);
    let b = pre + frame(f) + rest;
    let p = pre.len() as int;
    lemma_be8_round_trip(f.len() as u64);
    let e = be8(f.len() as u64);
    assert forall|i: int| 0 <= i < 8 implies b[p + i] == e[i] by {}
    assert(read_be8(b, p) == read_be8(e, 0));
    assert(b.subrange(p + 8, p + 8 + f.len()) =~= f);
}

/// Appends the eight big-endian bytes of `x` to `out`.
pub fn push_be8(out: &mut Vec<u8>, x: u64)
    ensures
        final(out)@ == old(out)@ + be8(x),
{
    out.push((x >> 56u64) as u8);
    out.push((x >> 48u64) as u8);
    out.push((x >> 40u64) as u8);
    out.push((x >> 32u64) as u8);
    out.push((x >> 24u64) as u8);
    out.push((x >> 16u64) as u8);
    out.push((x >> 8u64) as u8);
    out.push(x as u8);
    assert(final(out)@ =~= old(out)@ + be8(x));
}

/// Appends a frame holding `f` to `out`.
pub fn push_frame(out: &mut Vec<u8>, f: &[u8])
    ensures
        final(out)@ == old(out)@ + frame(f@),
{
    reveal(frame);
    push_be8(out, f.len() as u64);
    let ghost mid = out@;
    let mut i: usize = 0;
    while i < f.len()
        invariant
            0 <= i <= f@.len(),
            out@ == mid + f@.subrange(0, i as int),
        decreases f@.len() - i,
    {
        out.push(f[i]);
        i = i + 1;
        assert(out@ =~= mid + f@.subrange(0, i as int));
    }
    assert(f@.subrange(0, f@.len() as int) =~= f@);
}

/// Reads the eight big-endian bytes at `pos`.
pub fn get_be8(b: &[u8], pos: usize) -> (r: u64)
    requires
        pos + 8 <= b@.len(),
    ensures
        r == read_be8(b@, pos as int),
{
    (b[pos] as u64) << 56u64 | (b[pos + 1] as u64) << 48u64 | (b[pos + 2] as u64) << 40u64 | (b[pos
        + 3] as u64) << 32u64 | (b[pos + 4] as u64) << 24u64 | (b[pos + 5] as u64) << 16u64 | (b[pos
        + 6] as u64) << 8u64 | (b[pos + 7] as u64)
}

/// Reads the frame that starts at `pos`.
pub fn read_frame(b: &[u8], pos: usize) -> (r: Option<(Vec<u8>, usize)>)
    ensures
        match r {
            Some((f, end)) => take_frame(b@, pos as int) == Some((f@, end as int)),
            None => take_frame(b@, pos as int) is None,
        },
{
    if pos > b.len() || b.len() - pos < 8 {
        return None;
    }
    let n = get_be8(b, pos);
    if n > (b.len() - pos - 8) as u64 {
        return None;
    }
    let start = pos + 8;
    let end = start + n as usize;
    let mut f: Vec<u8> = Vec::new();
    let mut i: usize = start;
    while i < end
        invariant
            start <= i <= end <= b@.len(),
            f@ == b@.subrange(start as int, i as int),
        decreases end - i,
    {
        f.push(b[i]);
        i = i + 1;
        assert(f@ =~= b@.subrange(start as int, i as int));
    }
    Some((f, end))
}

/// The bytes that stand for a string.
pub open spec fn str_bytes(c: Seq<char>) -> Seq<u8> {
    encode_utf8(c)
}

/// The string that a field holds, if it is well-formed UTF-8.
pub open spec fn parse_str(f: Seq<u8>) -> Option<Seq<char>> {
    if valid_utf8(f) {
        Some(decode_utf8(f))
    } else {
        None
    }
}

/// An optional string: a zero byte for none, else a one byte and the string.
pub open spec fn opt_str_bytes(c: Option<Seq<char>>) -> Seq<u8> {
    match c {
        None => seq![0u8],
        Some(s) => seq![1u8] + encode_utf8(s),
    }
}

pub open spec fn parse_opt_str(f: Seq<u8>) -> Option<Option<Seq<char>>> {
    if f.len() == 1 && f[0] == 0 {
        Some(None)
    } else if f.len() >= 1 && f[0] == 1 {
        match parse_str(f.drop_first()) {
            Some(s) => Some(Some(s)),
            None => None,
        }
    } else {
        None
    }
}

/// An integer field: its eight big-endian bytes.
pub open spec fn parse_u64(f: Seq<u8>) -> Option<u64> {
    if f.len() == 8 {
        Some(read_be8(f, 0))
    } else {
        None
    }
}

pub open spec fn i64_bytes(x: i64) -> Seq<u8> {
    be8(x as u64)
}

pub open spec fn parse_i64(f: Seq<u8>) -> Option<i64> {
    if f.len() == 8 {
        Some(read_be8(f, 0) as i64)
    } else {
        None
    }
}

/// An optional integer: a zero byte for none, else a one byte and the integer.
pub open spec fn opt_i64_bytes(x: Option<i64>) -> Seq<u8> {
    match x {
        None => seq![0u8],
        Some(v) => seq![1u8] + i64_bytes(v),
    }
}

pub open spec fn parse_opt_i64(f: Seq<u8>) -> Option<Option<i64>> {
    if f.len() == 1 && f[0] == 0 {
        Some(None)
    } else if f.len() == 9 && f[0] == 1 {
        Some(Some(read_be8(f, 1) as i64))
    } else {
        None
    }
}

pub proof fn lemma_str_round_trip(c: Seq<char>)
    ensures
        parse_str(str_bytes(c)) == Some(c),
{
    encode_utf8_valid_utf8(c);
    encode_utf8_decode_utf8(c);
}

pub proof fn lemma_u64_round_trip(x: u64)
    ensures
        parse_u64(be8(x)) == Some(x),
{
    lemma_be8_round_trip(x);
}

pub proof fn lemma_i64_round_trip(x: i64)
    ensures
        parse_i64(i64_bytes(x)) == Some(x),
{
    lemma_be8_round_trip(x as u64);
    assert(((x as u64) as i64) == x) by (bit_vector);
}

pub proof fn lemma_opt_str_round_trip(c: Option<Seq<char>>)
    ensures
        parse_opt_str(opt_str_bytes(c)) == Some(c),
{
    match c {
        None => {},
        Some(s) => {
            lemma_str_round_trip(s);
            assert((seq![1u8] + encode_utf8(s)).drop_first() =~= encode_utf8(s));
        },
    }
}

pub proof fn lemma_opt_i64_round_trip(x: Option<i64>)
    ensures
        parse_opt_i64(opt_i64_bytes(x)) == Some(x),
{
    match x {
        None => {},
        Some(v) => {
            let f = seq![1u8] + be8(v as u64);
            lemma_be8_round_trip(v as u64);
            assert forall|i: int| 0 <= i < 8 implies f[1 + i] == #[trigger] be8(v as u64)[i] by {}
            assert(read_be8(f, 1) == read_be8(be8(v as u64), 0));
            assert(((v as u64) as i64) == v) by (bit_vector);
        },
    }
}

/// Relies on `String::from_utf8`: it accepts exactly the well-formed UTF-8
/// byte strings, and the string it returns is the one those bytes encode.
#[verifier::external_body]
fn string_from_utf8(b: Vec<u8>) -> (r: Option<String>)
    ensures
        match r {
            Some(s) => valid_utf8(b@) && s@ == decode_utf8(b@),
            None => !valid_utf8(b@),
        },
{
    String::from_utf8(b).ok()
}

/// The bytes that stand for `s`.
pub fn str_to_bytes(s: &str) -> (r: Vec<u8>)
    ensures
        r@ == str_bytes(s@),
{
    let b = s.as_bytes();
    let mut out: Vec<u8> = Vec::new();
    let mut i: usize = 0;
    while i < b.len()
        invariant
            0 <= i <= b@.len(),
            b@ == s.spec_bytes(),
            out@ == b@.subrange(0, i as int),
        decreases b@.len() - i,
    {
        out.push(b[i]);
        i = i + 1;
        assert(out@ =~= b@.subrange(0, i as int));
    }
    assert(b@.subrange(0, b@.len() as int) =~= b@);
    out
}

pub fn opt_str_to_bytes(s: &Option<String>) -> (r: Vec<u8>)
    ensures
        r@ == opt_str_bytes(
            match s {
                Some(t) => Some(t@),
                None => None,
            },
        ),
{
    let mut out: Vec<u8> = Vec::new();
    match s {
        None => {
            out.push(0u8);
            assert(out@ =~= seq![0u8]);
        },
        Some(t) => {
            out.push(1u8);
            let tb = str_to_bytes(t.as_str());
            push_raw(&mut out, &tb);
            assert(out@ =~= seq![1u8] + encode_utf8(t@));
        },
    }
    out
}

pub fn i64_to_bytes(x: i64) -> (r: Vec<u8>)
    ensures
        r@ == i64_bytes(x),
{
    let mut out: Vec<u8> = Vec::new();
    push_be8(&mut out, x as u64);
    assert(out@ =~= i64_bytes(x));
    out
}

pub fn opt_i64_to_bytes(x: Option<i64>) -> (r: Vec<u8>)
    ensures
        r@ == opt_i64_bytes(x),
{
    let mut out: Vec<u8> = Vec::new();
    match x {
        None => {
            out.push(0u8);
            assert(out@ =~= seq![0u8]);
        },
        Some(v) => {
            out.push(1u8);
            push_be8(&mut out, v as u64);
            assert(out@ =~= seq![1u8] + be8(v as u64));
        },
    }
    out
}

pub fn u64_to_bytes(x: u64) -> (r: Vec<u8>)
    ensures
        r@ == be8(x),
{
    let mut out: Vec<u8> = Vec::new();
    push_be8(&mut out, x);
    assert(out@ =~= be8(x));
    out
}

/// Appends the bytes of `f` to `out`.
pub fn push_raw(out: &mut Vec<u8>, f: &[u8])
    ensures
        final(out)@ == old(out)@ + f@,
{
    let ghost start = out@;
    let mut i: usize = 0;
    while i < f.len()
        invariant
            0 <= i <= f@.len(),
            out@ == start + f@.subrange(0, i as int),
        decreases f@.len() - i,
    {
        out.push(f[i]);
        i = i + 1;
        assert(out@ =~= start + f@.subrange(0, i as int));
    }
    assert(f@.subrange(0, f@.len() as int) =~= f@);
}

/// The bytes of `b` from `start` on.
pub fn tail_bytes(b: &[u8], start: usize) -> (r: Vec<u8>)
    requires
        start <= b@.len(),
    ensures
        r@ == b@.subrange(start as int, b@.len() as int),
{
    let mut out: Vec<u8> = Vec::new();
    let mut i: usize = start;
    while i < b.len()
        invariant
            start <= i <= b@.len(),
            out@ == b@.subrange(start as int, i as int),
        decreases b@.len() - i,
    {
        out.push(b[i]);
        i = i + 1;
        assert(out@ =~= b@.subrange(start as int, i as int));
    }
    out
}

pub fn bytes_to_str(f: Vec<u8>) -> (r: Option<String>)
    ensures
        match r {
            Some(s) => parse_str(f@) == Some(s@),
            None => parse_str(f@) is None,
        },
{
    string_from_utf8(f)
}

pub fn bytes_to_opt_str(f: &Vec<u8>) -> (r: Option<Option<String>>)
    ensures
        match r {
            Some(Some(s)) => parse_opt_str(f@) == Some(Some(s@)),
            Some(None) => parse_opt_str(f@) == Some(None::<Seq<char>>),
            None => parse_opt_str(f@) is None,
        },
{
    if f.len() == 1 && f[0] == 0 {
        Some(None)
    } else if f.len() >= 1 && f[0] == 1 {
        let rest = tail_bytes(f.as_slice(), 1);
        assert(rest@ =~= f@.drop_first());
        match bytes_to_str(rest) {
            Some(s) => Some(Some(s)),
            None => None,
        }
    } else {
        None
    }
}

pub fn bytes_to_u64(f: &Vec<u8>) -> (r: Option<u64>)
    ensures
        r == parse_u64(f@),
{
    if f.len() == 8 {
        Some(get_be8(f.as_slice(), 0))
    } else {
        None
    }
}

pub fn bytes_to_i64(f: &Vec<u8>) -> (r: Option<i64>)
    ensures
        r == parse_i64(f@),
{
    if f.len() == 8 {
        Some(get_be8(f.as_slice(), 0) as i64)
    } else {
        None
    }
}

pub fn bytes_to_opt_i64(f: &Vec<u8>) -> (r: Option<Option<i64>>)
    ensures
        r == parse_opt_i64(f@),
{
    if f.len() == 1 && f[0] == 0 {
        Some(None)
    } else if f.len() == 9 && f[0] == 1 {
        Some(Some(get_be8(f.as_slice(), 1) as i64))
    } else {
        None
    }
}

} // verus!
