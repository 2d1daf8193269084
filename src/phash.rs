//! Perceptual hashes: how they are computed and decoded (by `img_hash`), and
//! the Hamming distance between two of them.
use vstd::prelude::*;
use vstd::string::StringSliceAdditionalSpecFns;

verus! {

/// The widest hash, in bytes, that the library compares.
pub const MAX_HASH_BYTES: usize = 4096;

/// The longest hash string, in bytes, that the library decodes.
pub const MAX_HASH_TEXT: usize = 16384;

/// The bits of the hash that a Base64 string encodes, if it encodes one.
pub uninterp spec fn hash_bits_of(s: Seq<char>) -> Option<Seq<u8>>;

/// The Base64 perceptual hash of an image of `width` × `height` pixels whose
/// RGBA bytes start `rgba`.
pub uninterp spec fn pixel_hash_of(width: u32, height: u32, rgba: Seq<u8>) -> Option<Seq<char>>;

/// Relies on `img_hash::ImageHash::from_base64` and `as_bytes`: the bytes of
/// the hash that `s` encodes, which depend on `s` alone. (`from_bytes`
/// multiplies the decoded length by eight, hence the bound.)
#[verifier::external_body]
pub(crate) fn hash_bits(s: &str) -> (r: Option<Vec<u8>>)
    requires
        s.spec_bytes().len() <= MAX_HASH_TEXT,
    ensures
        match r {
            Some(v) => hash_bits_of(s@) == Some(v@),
            None => hash_bits_of(s@) is None,
        },
{
    img_hash::ImageHash::<Box<[u8]>>::from_base64(s).ok().map(|h| h.as_bytes().to_vec())
}

/// Relies on `image::ImageBuffer::from_raw` for RGBA pixels, which gives no
/// image exactly where `rgba` is shorter than four bytes per pixel, and on
/// `img_hash`'s default hasher, whose `hash_image(..).to_base64()` gives the
/// hash string: the result depends on the arguments alone. Both sides are
/// at least one pixel, so that the hasher's resizing has something to read.
#[verifier::external_body]
fn hash_of_pixels(width: u32, height: u32, rgba: &[u8]) -> (r: Option<String>)
    requires
        width > 0,
        height > 0,
    ensures
        r is Some <==> rgba@.len() >= 4 * width * height,
        match r {
            Some(s) => pixel_hash_of(width, height, rgba@) == Some(s@),
            None => pixel_hash_of(width, height, rgba@) is None,
        },
{
    img_hash::image::RgbaImage::from_raw(width, height, rgba.to_vec()).map(
        |img| img_hash::HasherConfig::new().to_hasher().hash_image(&img).to_base64(),
    )
}

/// The perceptual hash of an image given as `width` × `height` RGBA pixels,
/// row by row; `None` where the image is empty or `rgba` holds too few bytes.
pub fn perceptual_hash(width: u32, height: u32, rgba: &[u8]) -> (r: Option<String>)
    ensures
        width == 0 || height == 0 ==> r is None,
        width > 0 && height > 0 ==> (r is Some <==> rgba@.len() >= 4 * width * height),
        width > 0 && height > 0 ==> match r {
            Some(s) => pixel_hash_of(width, height, rgba@) == Some(s@),
            None => pixel_hash_of(width, height, rgba@) is None,
        },
{
    if width == 0 || height == 0 {
        return None;
    }
    hash_of_pixels(width, height, rgba)
}

/// Bit `j` of `x`, as 0 or 1.
pub open spec fn bit(x: u8, j: u8) -> nat {
    if (x >> j) & 1u8 == 1u8 {
        1
    } else {
        0
    }
}

/// The number of one bits among the lowest `j` bits of `x`.
pub open spec fn ones(x: u8, j: nat) -> nat
    decreases j,
{
    if j == 0 {
        0
    } else {
        ones(x, (j - 1) as nat) + bit(x, (j - 1) as u8)
    }
}

/// The number of bits in which two bytes differ.
pub open spec fn byte_distance(a: u8, b: u8) -> nat {
    ones(a ^ b, 8)
}

/// The Hamming distance of two bit strings of the same width: the number of
/// bits in which they differ.
pub open spec fn hamming(a: Seq<u8>, b: Seq<u8>) -> nat
    decreases a.len(),
{
    if a.len() == 0 || b.len() == 0 {
        0
    } else {
        hamming(a.drop_last(), b.drop_last()) + byte_distance(a.last(), b.last())
    }
}

proof fn lemma_ones_bound(x: u8, j: nat)
    ensures
        ones(x, j) <= j,
    decreases j,
{
    if j > 0 {
        lemma_ones_bound(x, (j - 1) as nat);
    }
}

proof fn lemma_hamming_bound(a: Seq<u8>, b: Seq<u8>)
    ensures
        hamming(a, b) <= 8 * a.len(),
    decreases a.len(),
{
    if a.len() > 0 && b.len() > 0 {
        lemma_hamming_bound(a.drop_last(), b.drop_last());
        lemma_ones_bound(a.last() ^ b.last(), 8);
    }
}

/// The number of bits in which two bytes differ.
fn byte_dist(a: u8, b: u8) -> (r: u64)
    ensures
        r == byte_distance(a, b),
{
    let x: u8 = a ^ b;
    let mut n: u64 = 0;
    let mut j: u8 = 0;
    while j < 8
        invariant
            j <= 8,
            n == ones(x, j as nat),
        decreases 8 - j,
    {
        proof {
            lemma_ones_bound(x, j as nat);
        }
        if (x >> j) & 1u8 == 1u8 {
            n = n + 1;
        }
        j = j + 1;
    }
    n
}

/// The Hamming distance of two hashes of the same width.
pub fn hamming_distance(a: &[u8], b: &[u8]) -> (r: u64)
    requires
        a@.len() == b@.len(),
        a@.len() <= MAX_HASH_BYTES,
    ensures
        r == hamming(a@, b@),
{
    let mut d: u64 = 0;
    let mut i: usize = 0;
    while i < a.len()
        invariant
            i <= a@.len(),
            a@.len() == b@.len(),
            a@.len() <= MAX_HASH_BYTES,
            d == hamming(a@.subrange(0, i as int), b@.subrange(0, i as int)),
        decreases a@.len() - i,
    {
        let ghost sa = a@.subrange(0, i + 1);
        let ghost sb = b@.subrange(0, i + 1);
        proof {
            assert(sa.drop_last() =~= a@.subrange(0, i as int));
            assert(sb.drop_last() =~= b@.subrange(0, i as int));
            lemma_hamming_bound(a@.subrange(0, i as int), b@.subrange(0, i as int));
            lemma_ones_bound(a[i as int] ^ b[i as int], 8);
        }
        let x = byte_dist(a[i], b[i]);
        d = d + x;
        i = i + 1;
    }
    assert(a@.subrange(0, a@.len() as int) =~= a@);
    assert(b@.subrange(0, b@.len() as int) =~= b@);
    d
}

} // verus!
