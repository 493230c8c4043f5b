//! The distance between two fingerprints and the laws it obeys.

use image::imageops::FilterType;
use image::{DynamicImage, GenericImageView, RgbaImage};
use vstd::prelude::*;

verus! {

/// Number of fingerprint bits.
pub const HASH_BITS: u64 = 64;

/// Bit `i` of `x`, as 0 or 1.
pub open spec fn bit_at(x: u64, i: nat) -> nat {
    ((x >> (i as u64)) & 1) as nat
}

/// How many of the lowest `k` bits of `x` are set.
pub open spec fn count_set_bits(x: u64, k: nat) -> nat
    decreases k,
{
    if k == 0 {
        0
    } else {
        count_set_bits(x, (k - 1) as nat) + bit_at(x, (k - 1) as nat)
    }
}

/// The Hamming distance of two codes: in how many of the 64 positions they differ.
pub open spec fn hamming(a: u64, b: u64) -> nat {
    count_set_bits(a ^ b, 64)
}

/// A bit is 0 or 1, so at most `k` of the lowest `k` bits are set.
pub proof fn lemma_count_set_bits_bound(x: u64, k: nat)
    requires
        k <= 64,
    ensures
        count_set_bits(x, k) <= k,
    decreases k,
{
    if k > 0 {
        lemma_count_set_bits_bound(x, (k - 1) as nat);
        let i = (k - 1) as u64;
        assert(((x >> i) & 1) <= 1) by (bit_vector);
    }
}

/// If none of the lowest `k` bits of `x` is set, `x` is zero below bit `k`.
proof fn lemma_no_set_bits_low_zero(x: u64, k: nat)
    requires
        k <= 64,
        count_set_bits(x, k) == 0,
    ensures
        k < 64 ==> x & (((1u64 << (k as u64)) - 1) as u64) == 0,
        k == 64 ==> x == 0,
    decreases k,
{
    if k == 0 {
        assert(x & (((1u64 << 0u64) - 1) as u64) == 0) by (bit_vector);
    } else {
        let j = (k - 1) as u64;
        lemma_no_set_bits_low_zero(x, (k - 1) as nat);
        assert((x >> j) & 1 == 0);
        if k < 64 {
            let kk = k as u64;
            assert(x & (((1u64 << kk) - 1) as u64) == 0) by (bit_vector)
                requires
                    kk < 64,
                    j == kk - 1,
                    x & (((1u64 << j) - 1) as u64) == 0,
                    (x >> j) & 1 == 0,
            ;
        } else {
            assert(x == 0) by (bit_vector)
                requires
                    j == 63,
                    x & (((1u64 << j) - 1) as u64) == 0,
                    (x >> j) & 1 == 0,
            ;
        }
    }
}

/// Zero has no set bit.
proof fn lemma_zero_has_no_set_bits(k: nat)
    requires
        k <= 64,
    ensures
        count_set_bits(0, k) == 0,
    decreases k,
{
    if k > 0 {
        lemma_zero_has_no_set_bits((k - 1) as nat);
        let j = (k - 1) as u64;
        assert((0u64 >> j) & 1 == 0) by (bit_vector);
    }
}

/// Position by position, `a` and `c` differ only where `a` and `b` or `b` and `c` do.
proof fn lemma_count_triangle(a: u64, b: u64, c: u64, k: nat)
    requires
        k <= 64,
    ensures
        count_set_bits(a ^ c, k) <= count_set_bits(a ^ b, k) + count_set_bits(b ^ c, k),
    decreases k,
{
    if k > 0 {
        lemma_count_triangle(a, b, c, (k - 1) as nat);
        let j = (k - 1) as u64;
        assert(((a ^ c) >> j) & 1 <= (((a ^ b) >> j) & 1) + (((b ^ c) >> j) & 1)) by (bit_vector)
            requires
                j < 64,
        ;
    }
}

/// The distance does not depend on the order of its arguments.
pub proof fn lemma_hamming_symmetric(a: u64, b: u64)
    ensures
        hamming(a, b) == hamming(b, a),
{
    assert(a ^ b == b ^ a) by (bit_vector);
}

/// The distance is zero exactly for equal codes.
pub proof fn lemma_hamming_zero_iff_equal(a: u64, b: u64)
    ensures
        hamming(a, b) == 0 <==> a == b,
{
    if a == b {
        assert(a ^ a == 0) by (bit_vector);
        lemma_zero_has_no_set_bits(64);
    }
    if hamming(a, b) == 0 {
        lemma_no_set_bits_low_zero(a ^ b, 64);
        assert(a == b) by (bit_vector)
            requires
                a ^ b == 0,
        ;
    }
}

/// Going through a third code never shortens the way.
pub proof fn lemma_hamming_triangle(a: u64, b: u64, c: u64)
    ensures
        hamming(a, c) <= hamming(a, b) + hamming(b, c),
{
    lemma_count_triangle(a, b, c, 64);
}

/// No two codes are further apart than the code is wide.
pub proof fn lemma_hamming_bound(a: u64, b: u64)
    ensures
        hamming(a, b) <= 64,
{
    lemma_count_set_bits_bound(a ^ b, 64);
}

/// The number of set bits of `x`.
pub fn popcount(x: u64) -> (n: u64)
    ensures
        n == count_set_bits(x, 64),
        n <= 64,
{
    let mut n: u64 = 0;
    let mut i: u64 = 0;
    while i < 64
        invariant
            i <= 64,
            n == count_set_bits(x, i as nat),
            n <= i,
        decreases 64 - i,
    {
        let b: u64 = (x >> i) & 1;
        assert(b <= 1) by (bit_vector)
            requires
                b == (x >> i) & 1,
        ;
        n = n + b;
        i = i + 1;
    }
    n
}

/// Hamming distance of two fingerprints.
pub fn hamming_distance(hash_a: u64, hash_b: u64) -> (d: u64)
    ensures
        d == hamming(hash_a, hash_b),
        d <= 64,
{
    popcount(hash_a ^ hash_b)
}

/// How similar two fingerprints are, from 0 for codes that differ in every
/// bit to 100 for equal codes: the share of equal bits in percent, rounded down.
pub open spec fn similarity(a: u64, b: u64) -> nat {
    ((64 - hamming(a, b)) * 100 / 64) as nat
}

/// The similarity score of two fingerprints.
pub fn similarity_score(hash_a: u64, hash_b: u64) -> (score: u64)
    ensures
        score == similarity(hash_a, hash_b),
        score <= 100,
{
    let same: u64 = 64 - hamming_distance(hash_a, hash_b);
    (same * 100) / 64
}

/// Sum of the first `k` values.
pub open spec fn luma_sum(luma: Seq<u8>, k: nat) -> nat
    decreases k,
{
    if k == 0 {
        0
    } else {
        luma_sum(luma, (k - 1) as nat) + luma[k - 1] as nat
    }
}

/// The average of the 64 values of an 8 by 8 grid, rounded down.
pub open spec fn luma_average(luma: Seq<u8>) -> nat {
    luma_sum(luma, 64) / 64
}

/// `hash` is the average hash of an 8 by 8 grid of brightness values given
/// row by row: bit `t` tells whether value `t` is above the average.
pub open spec fn is_average_hash(luma: Seq<u8>, hash: u64) -> bool {
    forall|t: nat|
        t < 64 ==> #[trigger] bit_at(hash, t) == if luma[t as int] > luma_average(luma) {
            1nat
        } else {
            0nat
        }
}

/// `hash` is the gradient hash of a grid of brightness values 9 wide and 8
/// high, given row by row: bit `col + 8 * row` tells whether the value at
/// that column and row is below its right neighbour.
pub open spec fn is_gradient_hash(luma: Seq<u8>, hash: u64) -> bool {
    forall|t: nat|
        t < 64 ==> #[trigger] bit_at(hash, t) == if luma[((t / 8) * 9 + t % 8) as int] < luma[((t
            / 8) * 9 + t % 8 + 1) as int] {
            1nat
        } else {
            0nat
        }
}

/// Setting bit `t` of a code whose bit `t` is clear changes that bit and no other.
proof fn lemma_put_bit(h: u64, b: u64, t: u64, s: u64)
    requires
        b <= 1,
        t < 64,
        s < 64,
        (h >> t) & 1 == 0,
    ensures
        ((h | (b << t)) >> s) & 1 == if s == t {
            b
        } else {
            (h >> s) & 1
        },
{
    assert(((h | (b << t)) >> s) & 1 == if s == t {
        b
    } else {
        (h >> s) & 1
    }) by (bit_vector)
        requires
            b <= 1,
            t < 64,
            s < 64,
            (h >> t) & 1 == 0,
    ;
}

/// Puts 64 flags into a code, flag `t` into bit `t`.
fn pack_flags(flags: &Vec<bool>) -> (hash: u64)
    requires
        flags@.len() == 64,
    ensures
        forall|t: nat|
            t < 64 ==> #[trigger] bit_at(hash, t) == if flags@[t as int] {
                1nat
            } else {
                0nat
            },
{
    let mut hash: u64 = 0;
    let mut t: u64 = 0;
    assert forall|s: nat| s < 64 implies #[trigger] bit_at(0u64, s) == 0 by {
        let j = s as u64;
        assert((0u64 >> j) & 1 == 0) by (bit_vector);
    }
    while t < 64
        invariant
            t <= 64,
            flags@.len() == 64,
            forall|s: nat|
                s < t ==> #[trigger] bit_at(hash, s) == if flags@[s as int] {
                    1nat
                } else {
                    0nat
                },
            forall|s: nat| t <= s < 64 ==> #[trigger] bit_at(hash, s) == 0,
        decreases 64 - t,
    {
        let b: u64 = if flags[t as usize] {
            1
        } else {
            0
        };
        let ghost before = hash;
        assert(bit_at(before, t as nat) == 0);
        hash = hash | (b << t);
        proof {
            assert forall|s: nat| s < 64 implies #[trigger] bit_at(hash, s) == if s == t {
                b as nat
            } else {
                bit_at(before, s)
            } by {
                lemma_put_bit(before, b, t, s as u64);
            }
        }
        t = t + 1;
    }
    hash
}

/// The average hash of an 8 by 8 grid of brightness values given row by row.
pub fn ahash_of_luma(luma: &Vec<u8>) -> (hash: u64)
    requires
        luma@.len() == 64,
    ensures
        is_average_hash(luma@, hash),
{
    let mut sum: u64 = 0;
    let mut k: usize = 0;
    while k < 64
        invariant
            k <= 64,
            luma@.len() == 64,
            sum == luma_sum(luma@, k as nat),
            sum <= 255 * k,
        decreases 64 - k,
    {
        sum = sum + luma[k] as u64;
        k = k + 1;
    }
    let average = sum / 64;
    let mut flags: Vec<bool> = Vec::new();
    let mut t: usize = 0;
    while t < 64
        invariant
            t <= 64,
            luma@.len() == 64,
            flags@.len() == t,
            average == luma_average(luma@),
            forall|s: int| 0 <= s < t ==> flags@[s] == (luma@[s] > average),
        decreases 64 - t,
    {
        flags.push(luma[t] as u64 > average);
        t = t + 1;
    }
    pack_flags(&flags)
}

/// The gradient hash of a grid of brightness values 9 wide and 8 high,
/// given row by row.
pub fn dhash_of_luma(luma: &Vec<u8>) -> (hash: u64)
    requires
        luma@.len() == 72,
    ensures
        is_gradient_hash(luma@, hash),
{
    let mut flags: Vec<bool> = Vec::new();
    let mut t: usize = 0;
    while t < 64
        invariant
            t <= 64,
            luma@.len() == 72,
            flags@.len() == t,
            forall|s: int|
                0 <= s < t ==> flags@[s] == (luma@[(s / 8) * 9 + s % 8] < luma@[(s / 8) * 9 + s % 8
                    + 1]),
        decreases 64 - t,
    {
        let at = (t / 8) * 9 + t % 8;
        flags.push(luma[at] < luma[at + 1]);
        t = t + 1;
    }
    pack_flags(&flags)
}

/// The brightness values that the image crate gives for an image scaled to
/// `nwidth` by `nheight` pixels, row by row: the image of `width` by `height`
/// pixels with the bytes `rgba` is scaled with the Gaussian filter, turned to
/// grey, and of each pixel the first channel is taken. The scaling reads
/// nothing but the pixels and the four sizes.
pub uninterp spec fn scaled_luma_of(
    rgba: Seq<u8>,
    width: nat,
    height: nat,
    nwidth: nat,
    nheight: nat,
) -> Seq<u8>;

/// A decoded image: its size and its pixels row by row, four bytes a pixel
/// (red, green, blue, alpha). It has at least one pixel.
pub struct Raster {
    width: u32,
    height: u32,
    rgba: Vec<u8>,
}

impl Raster {
    #[verifier::type_invariant]
    spec fn inv(&self) -> bool {
        &&& self.width > 0
        &&& self.height > 0
        &&& self.rgba@.len() == 4 * self.width * self.height
    }

    /// Width in pixels.
    pub closed spec fn width(&self) -> nat {
        self.width as nat
    }

    /// Height in pixels.
    pub closed spec fn height(&self) -> nat {
        self.height as nat
    }

    /// The bytes of the pixels.
    pub closed spec fn bytes(&self) -> Seq<u8> {
        self.rgba@
    }

    /// Takes the bytes of an image of the given size. There is no image
    /// without pixels, or with bytes missing or left over.
    pub fn new(width: u32, height: u32, rgba: Vec<u8>) -> (image: Option<Self>)
        ensures
            image is Some <==> width > 0 && height > 0 && rgba@.len() == 4 * width * height,
            image matches Some(r) ==> r.width() == width && r.height() == height && r.bytes()
                == rgba@,
    {
        if width == 0 || height == 0 {
            return None;
        }
        assert(4 * width * height <= 4 * 0xffff_ffff * 0xffff_ffff) by (nonlinear_arith)
            requires
                width <= 0xffff_ffff,
                height <= 0xffff_ffff,
        ;
        let need: u128 = 4 * (width as u128) * (height as u128);
        if rgba.len() as u128 != need {
            return None;
        }
        Some(Raster { width, height, rgba })
    }

    /// The brightness values of the image scaled to `nwidth` by `nheight`
    /// pixels, row by row. The image crate takes the bytes for an image
    /// (`ImageBuffer::from_raw`, which accepts them as there are four for
    /// each pixel), scales it with its Gaussian filter
    /// (`DynamicImage::resize_exact`), turns the result to grey
    /// (`DynamicImage::grayscale`) and hands out its pixels in row order
    /// (`GenericImageView::pixels`); of each the first channel is taken.
    /// What is claimed: the values are those that `scaled_luma_of` names for
    /// these pixels and sizes, and there are `nwidth * nheight` of them.
    #[verifier::external_body]
    fn scaled_luma(&self, nwidth: u32, nheight: u32) -> (luma: Vec<u8>)
        requires
            self.width() > 0,
            self.height() > 0,
            self.bytes().len() == 4 * self.width() * self.height(),
            0 < nwidth <= 1024,
            0 < nheight <= 1024,
        ensures
            luma@ == scaled_luma_of(
                self.bytes(),
                self.width(),
                self.height(),
                nwidth as nat,
                nheight as nat,
            ),
            luma@.len() == nwidth * nheight,
    {
        let source = RgbaImage::from_raw(self.width, self.height, self.rgba.clone()).unwrap();
        let small = DynamicImage::ImageRgba8(source).resize_exact(
            nwidth,
            nheight,
            FilterType::Gaussian,
        ).grayscale();
        small.pixels().map(|(_, _, p)| p[0]).collect()
    }
}

/// Average hashing: the image is scaled to 8 by 8 brightness values, and
/// bit `t` of the code tells whether value `t` is above their average.
pub fn ahash(image: &Raster) -> (hash: u64)
    ensures
        is_average_hash(
            scaled_luma_of(image.bytes(), image.width(), image.height(), 8, 8),
            hash,
        ),
{
    proof {
        use_type_invariant(image);
    }
    let luma = image.scaled_luma(8, 8);
    ahash_of_luma(&luma)
}

/// Difference hashing: the image is scaled to brightness values 9 wide and 8
/// high, and each bit of the code tells whether a value is below its right
/// neighbour.
pub fn dhash(image: &Raster) -> (hash: u64)
    ensures
        is_gradient_hash(
            scaled_luma_of(image.bytes(), image.width(), image.height(), 9, 8),
            hash,
        ),
{
    proof {
        use_type_invariant(image);
    }
    let luma = image.scaled_luma(9, 8);
    dhash_of_luma(&luma)
}

} // verus!
