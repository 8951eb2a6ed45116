use vstd::prelude::*;
use vstd::arithmetic::power2::{pow2, lemma_pow2_unfold, lemma2_to64, lemma_pow2_strictly_increases};
use sha2::{Digest, Sha256};
use image::DynamicImage;
use image::imageops::FilterType;
use crate::text::{hex_lower, to_hex_lower};

verus! {

/// Largest Hamming distance between two difference hashes at which the
/// images are still taken as visually similar.
pub const DHASH_THRESHOLD: u32 = 8;

/// Number of bits set in `x`.
pub open spec fn popcount(x: u64) -> nat
    decreases x,
{
    if x == 0 {
        0
    } else {
        ((x % 2) as nat) + popcount(x / 2)
    }
}

/// Number of bits in which `a` and `b` differ.
pub open spec fn spec_hamming(a: u64, b: u64) -> nat {
    popcount(a ^ b)
}

/// A value below 2^k has at most k bits set.
proof fn lemma_popcount_below(x: u64, k: nat)
    requires
        (x as int) < pow2(k) as int,
    ensures
        popcount(x) <= k,
    decreases k,
{
    lemma2_to64();
    if x != 0 {
        assert(k > 0);
        lemma_pow2_unfold(k);
        lemma_popcount_below(x / 2, (k - 1) as nat);
    }
}

/// A 64-bit value has at most 64 bits set.
pub proof fn lemma_popcount_le_width(x: u64)
    ensures
        popcount(x) <= 64,
{
    lemma2_to64();
    lemma_popcount_below(x, 64);
}

/// Counts the bits set in `x`.
fn count_ones(x: u64) -> (r: u32)
    ensures
        r as nat == popcount(x),
{
    proof {
        lemma_popcount_le_width(x);
    }
    let mut v: u64 = x;
    let mut c: u32 = 0;
    while v != 0
        invariant
            c as nat + popcount(v) == popcount(x),
            popcount(x) <= 64,
        decreases v,
    {
        assert(v & 1 == v % 2) by (bit_vector);
        assert(v >> 1 == v / 2) by (bit_vector);
        c = c + (v & 1) as u32;
        v = v >> 1;
    }
    c
}

/// Number of bits in which two difference hashes differ.
pub fn hamming_distance(a: u64, b: u64) -> (r: u32)
    ensures
        r as nat == spec_hamming(a, b),
{
    count_ones(a ^ b)
}

/// Two images are visually similar when both have a difference hash and the
/// hashes differ in at most [`DHASH_THRESHOLD`] bits.
pub open spec fn spec_similar(a: Option<u64>, b: Option<u64>) -> bool {
    a is Some && b is Some && spec_hamming(a->0, b->0) <= DHASH_THRESHOLD
}

/// Whether two images, by their difference hashes, look alike.
pub fn visualmente_similares(a: Option<u64>, b: Option<u64>) -> (r: bool)
    ensures
        r == spec_similar(a, b),
{
    match (a, b) {
        (Some(a), Some(b)) => hamming_distance(a, b) <= DHASH_THRESHOLD,
        _ => false,
    }
}

/// The Hamming distance is symmetric.
pub proof fn lemma_hamming_symmetric(a: u64, b: u64)
    ensures
        spec_hamming(a, b) == spec_hamming(b, a),
{
    assert(a ^ b == b ^ a) by (bit_vector);
}

/// The Hamming distance is zero exactly between equal hashes, and at most 64.
pub proof fn lemma_hamming_zero_iff_equal(a: u64, b: u64)
    ensures
        spec_hamming(a, b) == 0 <==> a == b,
        spec_hamming(a, b) <= 64,
{
    assert(a ^ b == 0 <==> a == b) by (bit_vector);
    lemma_popcount_le_width(a ^ b);
    if a ^ b != 0 {
        lemma_popcount_positive(a ^ b);
    }
}

proof fn lemma_popcount_positive(x: u64)
    requires
        x != 0,
    ensures
        popcount(x) > 0,
    decreases x,
{
    if x % 2 == 0 {
        assert(x / 2 != 0);
        lemma_popcount_positive(x / 2);
    }
}

/// Bits set in `x ^ y` are at most those set in `x` and in `y` together.
proof fn lemma_popcount_xor(x: u64, y: u64)
    ensures
        popcount(x ^ y) <= popcount(x) + popcount(y),
    decreases x, y,
{
    assert((x ^ y) / 2 == (x / 2) ^ (y / 2)) by (bit_vector);
    assert((x ^ y) % 2 == (x % 2 + y % 2) % 2) by (bit_vector);
    assert(x ^ y == 0 <== x == 0 && y == 0) by (bit_vector);
    if x == 0 && y == 0 {
    } else if x == 0 {
        assert(x ^ y == y) by (bit_vector) requires x == 0;
    } else if y == 0 {
        assert(x ^ y == x) by (bit_vector) requires y == 0;
    } else {
        lemma_popcount_xor(x / 2, y / 2);
        if x ^ y == 0 {
        }
    }
}

/// The Hamming distance obeys the triangle inequality.
pub proof fn lemma_hamming_triangle(a: u64, b: u64, c: u64)
    ensures
        spec_hamming(a, c) <= spec_hamming(a, b) + spec_hamming(b, c),
{
    assert(a ^ c == (a ^ b) ^ (b ^ c)) by (bit_vector);
    lemma_popcount_xor(a ^ b, b ^ c);
}

/// Visual similarity is symmetric, and every image with a difference hash is
/// similar to itself.
pub proof fn lemma_similar_symmetric_reflexive(a: Option<u64>, b: Option<u64>)
    ensures
        spec_similar(a, b) == spec_similar(b, a),
        a is Some ==> spec_similar(a, a),
{
    if a is Some && b is Some {
        lemma_hamming_symmetric(a->0, b->0);
    }
    if a is Some {
        lemma_hamming_zero_iff_equal(a->0, a->0);
    }
}

/// SHA-256 digest of a byte string.
pub uninterp spec fn sha256(data: Seq<u8>) -> Seq<u8>;

/// Calls `sha2::Sha256` (`new`, `update`, `finalize`) on `bytes`: the result
/// is the 32-byte SHA-256 digest of the bytes.
#[verifier::external_body]
fn sha256_digest(bytes: &[u8]) -> (d: Vec<u8>)
    ensures
        d@ == sha256(bytes@),
        d@.len() == 32,
{
    let mut hasher = Sha256::new();
    hasher.update(bytes);
    hasher.finalize().to_vec()
}

/// SHA-256 digest of `bytes`, as 64 lower-case hexadecimal digits.
pub fn sha256_bytes(bytes: &[u8]) -> (r: String)
    ensures
        r@ == hex_lower(sha256(bytes@)),
        r@.len() == 64,
{
    let digest = sha256_digest(bytes);
    proof {
        crate::text::lemma_hex_lower_len(digest@);
    }
    to_hex_lower(digest.as_slice())
}

#[verifier::external_type_specification]
#[verifier::external_body]
pub struct ExDynamicImage(DynamicImage);

/// Calls `image::ImageReader::new` on the bytes, guesses the format from
/// their first bytes (`with_guessed_format`) and decodes them (`decode`).
/// Nothing is promised of the result: the format guess and the decoder
/// choice consult hooks that any code of the process may register.
#[verifier::external_body]
fn decode_image(bytes: &[u8]) -> (r: Option<DynamicImage>) {
    image::ImageReader::new(std::io::Cursor::new(bytes)).with_guessed_format().ok()?.decode().ok()
}

/// The 72 grey levels, row by row, of the 9 by 8 grey thumbnail of an image.
pub uninterp spec fn gray_levels(img: DynamicImage) -> Seq<u8>;

/// Calls `DynamicImage::grayscale`, then `resize_exact(9, 8, Triangle)` and
/// `into_luma8`: the 72 grey levels of a 9 by 8 thumbnail of the image, row
/// by row (`into_raw` of a 9 by 8 one-channel buffer). They depend on the
/// image alone.
#[verifier::external_body]
fn gray_thumbnail_9x8(img: &DynamicImage) -> (g: Vec<u8>)
    ensures
        g@ == gray_levels(*img),
        g@.len() == 72,
{
    img.grayscale().resize_exact(9, 8, FilterType::Triangle).into_luma8().into_raw()
}

/// Bit `i` of the difference hash of a 9 by 8 grey thumbnail (row by row):
/// set when pixel `i % 8` of row `i / 8` is brighter than its right neighbour.
pub open spec fn dhash_bit(g: Seq<u8>, i: int) -> nat {
    if g[9 * (i / 8) + i % 8] > g[9 * (i / 8) + i % 8 + 1] { 1 } else { 0 }
}

/// The first `i` bits of the difference hash, the first bit most significant.
pub open spec fn dhash_prefix(g: Seq<u8>, i: nat) -> nat
    decreases i,
{
    if i == 0 { 0 } else { 2 * dhash_prefix(g, (i - 1) as nat) + dhash_bit(g, i - 1) }
}

/// The 64-bit difference hash of a 9 by 8 grey thumbnail.
pub open spec fn spec_dhash(g: Seq<u8>) -> nat {
    dhash_prefix(g, 64)
}

/// Difference hash of a 9 by 8 grey thumbnail given row by row: one bit per
/// pair of horizontal neighbours, set when the left one is brighter.
pub fn dhash_grid(gray: &[u8]) -> (h: u64)
    requires
        gray@.len() == 72,
    ensures
        h as nat == spec_dhash(gray@),
{
    proof {
        lemma2_to64();
    }
    let mut hash: u64 = 0;
    for y in 0..8usize
        invariant
            gray@.len() == 72,
            hash as nat == dhash_prefix(gray@, (8 * y) as nat),
            (hash as nat) < pow2((8 * y) as nat),
            pow2(64) == 0x1_0000_0000_0000_0000,
    {
        for x in 0..8usize
            invariant
                gray@.len() == 72,
                y < 8,
                hash as nat == dhash_prefix(gray@, (8 * y + x) as nat),
                (hash as nat) < pow2((8 * y + x) as nat),
                pow2(64) == 0x1_0000_0000_0000_0000,
        {
            let i: usize = 8 * y + x;
            let left = gray[9 * y + x];
            let right = gray[9 * y + x + 1];
            let bit: u64 = if left > right { 1 } else { 0 };
            proof {
                assert(i / 8 == y && i % 8 == x);
                assert(bit as nat == dhash_bit(gray@, i as int));
                lemma_pow2_unfold((i + 1) as nat);
                if i + 1 < 64 {
                    lemma_pow2_strictly_increases((i + 1) as nat, 64);
                }
                assert(hash < 0x8000_0000_0000_0000);
                assert((hash << 1) | bit == 2 * hash + bit) by (bit_vector)
                    requires
                        hash < 0x8000_0000_0000_0000,
                        bit <= 1;
            }
            hash = (hash << 1) | bit;
        }
    }
    hash
}

/// Difference hash of an image: its 9 by 8 grey thumbnail through
/// [`dhash_grid`].
pub fn dhash_image(img: &DynamicImage) -> (h: u64)
    ensures
        h as nat == spec_dhash(gray_levels(*img)),
{
    let gray = gray_thumbnail_9x8(img);
    dhash_grid(gray.as_slice())
}

/// Difference hash of the image that `bytes` hold, if they hold one that
/// decodes: whatever image the decoder gives, the hash is that of
/// [`dhash_image`] on it.
pub fn dhash_bytes(bytes: &[u8]) -> (r: Option<u64>)
    ensures
        r is Some ==> exists|img: DynamicImage| r->0 as nat == #[trigger] spec_dhash(gray_levels(img)),
{
    let img = decode_image(bytes)?;
    Some(dhash_image(&img))
}

/// Halving `2x + b`, for a bit `b`, gives `x`; dividing it by `2m` gives `x / m`.
proof fn lemma_shift_out_bit(x: nat, b: nat, m: nat)
    requires
        b < 2,
        m > 0,
    ensures
        (2 * x + b) / (2 * m) == x / m,
        (2 * x + b) % 2 == b,
{
    assert((2 * x + b) / 2 == x && (2 * x + b) % 2 == b) by (nonlinear_arith)
        requires
            b < 2,
    ;
    vstd::arithmetic::div_mod::lemma_div_denominator((2 * x + b) as int, 2, m as int);
}

/// The first `n` bits of the hash, read back one at a time.
proof fn lemma_prefix_bits(g: Seq<u8>, n: nat, i: int)
    requires
        0 <= i < n,
    ensures
        (dhash_prefix(g, n) / pow2((n - 1 - i) as nat)) % 2 == dhash_bit(g, i),
        dhash_prefix(g, n) < pow2(n),
    decreases n,
{
    let x = dhash_prefix(g, (n - 1) as nat);
    let b = dhash_bit(g, n - 1);
    lemma_pow2_unfold(n);
    if n > 1 {
        lemma_prefix_bits(g, (n - 1) as nat, 0);
    }
    if n == 1 {
        assert(x == 0);
    }
    assert(dhash_prefix(g, n) == 2 * x + b);
    assert(b < 2);
    if i == n - 1 {
        lemma_shift_out_bit(x, b, 1);
        assert(pow2(0) == 1) by {
            vstd::arithmetic::power2::lemma2_to64();
        }
        assert((n - 1 - i) as nat == 0);
        assert((2 * x + b) / 1 == 2 * x + b);
    } else {
        lemma_prefix_bits(g, (n - 1) as nat, i);
        let k = (n - 1 - i) as nat;
        lemma_pow2_unfold(k);
        vstd::arithmetic::power2::lemma_pow2_pos((k - 1) as nat);
        lemma_shift_out_bit(x, b, pow2((k - 1) as nat));
        assert((n - 1 - 1 - i) as nat == (k - 1) as nat);
        assert(pow2(k) == 2 * pow2((k - 1) as nat));
        assert(dhash_prefix(g, n) / pow2(k) == x / pow2((k - 1) as nat));
    }
}

/// The difference hash of a 9 by 8 grey grid, given row by row, is a 64-bit
/// number whose bit `i`, counted from the most significant, is set exactly
/// when pixel `i % 8` of row `i / 8` is brighter than its right-hand
/// neighbour in that row.
pub proof fn lemma_dhash_bits(g: Seq<u8>, i: int)
    requires
        g.len() == 72,
        0 <= i < 64,
    ensures
        spec_dhash(g) < 0x1_0000_0000_0000_0000,
        (spec_dhash(g) / pow2((63 - i) as nat)) % 2 == (if g[9 * (i / 8) + i % 8] > g[9 * (i / 8) + i % 8 + 1] {
            1nat
        } else {
            0nat
        }),
{
    lemma_prefix_bits(g, 64, i);
    lemma2_to64();
}

} // verus!
