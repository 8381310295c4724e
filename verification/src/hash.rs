use crate::transform::{be64_bytes, push_be64};
use sha2::Digest;
use vstd::prelude::*;

verus! {

/// The SHA-256 digest of `data`, as `sha2::Sha256` computes it.
pub uninterp spec fn sha256(data: Seq<u8>) -> Seq<u8>;

/// Calls `sha2::Sha256::digest`. The contract claims only that the 32-byte result is the
/// SHA-256 digest of `data`, named by [`sha256`].
#[verifier::external_body]
pub(crate) fn sha256_digest(data: &[u8]) -> (digest: [u8; 32])
    ensures
        digest@ == sha256(data@),
{
    sha2::Sha256::digest(data).into()
}


/// The lowercase hexadecimal digit of a number below sixteen.
pub open spec fn hex_digit(n: int) -> char {
    if n < 10 {
        (48 + n) as char
    } else {
        (87 + n) as char
    }
}

/// Lowercase hexadecimal text of a byte string, two digits per byte, high digit first.
pub open spec fn spec_hex_lower(bytes: Seq<u8>) -> Seq<char> {
    Seq::new(
        2 * bytes.len(),
        |i: int|
            if i % 2 == 0 {
                hex_digit(bytes[i / 2] as int / 16)
            } else {
                hex_digit(bytes[i / 2] as int % 16)
            },
    )
}

/// Calls `hex::encode`, which writes each byte as two lowercase hexadecimal digits,
/// high digit first, as its documentation states.
#[verifier::external_body]
fn hex_encode(data: &[u8]) -> (text: String)
    ensures
        text@ == spec_hex_lower(data@),
{
    hex::encode(data)
}

/// The SHA-256 digest of `data`, as lowercase hexadecimal text.
pub fn sha256_hex(data: &[u8]) -> (text: String)
    ensures
        text@ == spec_hex_lower(sha256(data@)),
{
    let digest = sha256_digest(data);
    hex_encode(digest.as_slice())
}


/// An image as 8-bit RGBA pixels, row by row.
pub struct RgbaRaster {
    pub width: u32,
    pub height: u32,
    pub pixels: Vec<u8>,
}

impl RgbaRaster {
    /// Four bytes per pixel, `width` x `height` pixels.
    pub open spec fn well_formed(&self) -> bool {
        self.pixels@.len() == 4 * (self.width as int) * (self.height as int)
    }
}

/// The 8x8 grayscale thumbnail, 64 bytes row by row, that `image` makes of an RGBA image by
/// `DynamicImage::resize_exact(8, 8, FilterType::Triangle)` followed by `to_luma8`.
pub uninterp spec fn luma_thumbnail(width: u32, height: u32, rgba: Seq<u8>) -> Seq<u8>;

/// Calls `image::DynamicImage::resize_exact` (triangle filter) and `to_luma8` on the image
/// that `RgbaImage::from_raw` makes of the pixels. The thumbnail is named by
/// [`luma_thumbnail`]; the contract claims only that it has 8 x 8 one-byte pixels.
#[verifier::external_body]
fn thumbnail_8x8_luma(width: u32, height: u32, rgba: &[u8]) -> (luma: Vec<u8>)
    requires
        rgba@.len() == 4 * (width as int) * (height as int),
    ensures
        luma@ == luma_thumbnail(width, height, rgba@),
        luma@.len() == 64,
{
    let image = image::RgbaImage::from_raw(width, height, rgba.to_vec()).unwrap();
    image::DynamicImage::ImageRgba8(image)
        .resize_exact(8, 8, image::imageops::FilterType::Triangle)
        .to_luma8()
        .into_raw()
}

/// Sum of the first `n` values.
pub open spec fn sum_prefix(values: Seq<u8>, n: int) -> int
    decreases n,
{
    if n <= 0 {
        0
    } else {
        sum_prefix(values, n - 1) + values[n - 1]
    }
}

/// The 64-bit word whose bit `63 - i` is set, for `i < n`, when value `i` is at least the
/// mean of all values (`64 * value >= total` over 64 values).
pub open spec fn mean_bits(values: Seq<u8>, total: int, n: int) -> u64
    decreases n,
{
    if n <= 0 {
        0u64
    } else {
        let rest = mean_bits(values, total, n - 1);
        if 64 * values[n - 1] >= total {
            rest | (1u64 << ((63 - (n - 1)) as u64))
        } else {
            rest
        }
    }
}

/// Bit `k` (0 = least significant) of `word`.
pub open spec fn word_bit(word: u64, k: int) -> bool {
    (word >> (k as u64)) & 1u64 == 1u64
}

proof fn lemma_word_bit_of_or_mask(x: u64, j: u64, k: u64)
    by (bit_vector)
    requires
        j < 64,
        k < 64,
    ensures
        ((x | (1u64 << ((63u64 - j) as u64))) >> ((63u64 - k) as u64)) & 1u64 == (if j == k {
            1u64
        } else {
            (x >> ((63u64 - k) as u64)) & 1u64
        }),
{
}

proof fn lemma_word_bit_of_zero(k: u64)
    by (bit_vector)
    requires
        k < 64,
    ensures
        (0u64 >> ((63u64 - k) as u64)) & 1u64 == 0u64,
{
}

proof fn lemma_word_top_bit(x: u64)
    by (bit_vector)
    ensures
        x >> 63u64 == (x >> 63u64) & 1u64,
        x >> 0u64 == x,
{
}

proof fn lemma_word_shift_step(x: u64, k: u64)
    by (bit_vector)
    requires
        k < 63,
    ensures
        x >> k == ((x >> ((k + 1) as u64)) << 1u64) | ((x >> k) & 1u64),
{
}

proof fn lemma_word_bit_is_zero_or_one(x: u64, k: u64)
    by (bit_vector)
    ensures
        (x >> k) & 1u64 == 0u64 || (x >> k) & 1u64 == 1u64,
{
}

/// Two words that agree on bits `k` to 63 agree after a shift right by `k`.
proof fn lemma_word_eq_from_bit(x: u64, y: u64, k: int)
    requires
        0 <= k < 64,
        forall|j: int| k <= j < 64 ==> #[trigger] word_bit(x, j) == word_bit(y, j),
    ensures
        x >> (k as u64) == y >> (k as u64),
    decreases 64 - k,
{
    lemma_word_bit_is_zero_or_one(x, k as u64);
    lemma_word_bit_is_zero_or_one(y, k as u64);
    assert(word_bit(x, k) == word_bit(y, k));
    if k == 63 {
        lemma_word_top_bit(x);
        lemma_word_top_bit(y);
    } else {
        lemma_word_eq_from_bit(x, y, k + 1);
        lemma_word_shift_step(x, k as u64);
        lemma_word_shift_step(y, k as u64);
    }
}

/// Two words with the same 64 bits are equal.
proof fn lemma_word_eq_by_bits(x: u64, y: u64)
    requires
        forall|j: int| 0 <= j < 64 ==> #[trigger] word_bit(x, j) == word_bit(y, j),
    ensures
        x == y,
{
    lemma_word_eq_from_bit(x, y, 0);
    lemma_word_top_bit(x);
    lemma_word_top_bit(y);
}

/// Bit `63 - k` of `mean_bits(values, total, n)` is set exactly when `k < n` and value `k`
/// is at least the mean.
proof fn lemma_mean_bits_bit(values: Seq<u8>, total: int, n: int, k: int)
    requires
        0 <= n <= 64,
        n <= values.len(),
        0 <= k < 64,
    ensures
        word_bit(mean_bits(values, total, n), 63 - k) == (k < n && 64 * values[k] >= total),
    decreases n,
{
    if n == 0 {
        lemma_word_bit_of_zero(k as u64);
    } else {
        lemma_mean_bits_bit(values, total, n - 1, k);
        let rest = mean_bits(values, total, n - 1);
        if 64 * values[n - 1] >= total {
            lemma_word_bit_of_or_mask(rest, (n - 1) as u64, k as u64);
        }
    }
}

/// The average hash of an image is the hexadecimal text, most significant byte first, of
/// the 64-bit word whose bit `63 - i` is set exactly when pixel `i` of the 8x8 thumbnail is
/// at least the arithmetic mean of the 64 thumbnail pixels (64 times its value is at least
/// their sum).
pub proof fn lemma_average_hash_marks_pixels_at_least_mean(width: u32, height: u32, rgba: Seq<u8>, word: u64)
    requires
        luma_thumbnail(width, height, rgba).len() == 64,
        forall|i: int|
            0 <= i < 64 ==> #[trigger] word_bit(word, 63 - i) == (64 * luma_thumbnail(width, height, rgba)[i]
                >= sum_prefix(luma_thumbnail(width, height, rgba), 64)),
    ensures
        spec_average_hash(width, height, rgba) == spec_hex_lower(be64_bytes(word)),
{
    let luma = luma_thumbnail(width, height, rgba);
    let total = sum_prefix(luma, 64);
    let computed = mean_bits(luma, total, 64);
    assert forall|j: int| 0 <= j < 64 implies #[trigger] word_bit(computed, j) == word_bit(word, j) by {
        lemma_mean_bits_bit(luma, total, 64, 63 - j);
        assert(word_bit(word, 63 - (63 - j)) == (64 * luma[63 - j] >= total));
    }
    lemma_word_eq_by_bits(computed, word);
}

/// The average hash of an image: the bits of its 8x8 grayscale thumbnail that are at least
/// the thumbnail's mean, first pixel as the most significant bit, as 16 hexadecimal digits.
pub open spec fn spec_average_hash(width: u32, height: u32, rgba: Seq<u8>) -> Seq<char> {
    let luma = luma_thumbnail(width, height, rgba);
    spec_hex_lower(be64_bytes(mean_bits(luma, sum_prefix(luma, 64), 64)))
}

/// The perceptual (average) hash of an image. The mean is compared exactly: a pixel is
/// at least the mean of the 64 pixels when 64 times its value is at least their sum, which
/// is what the `f32` comparison of the value with the sum over 64 decides, all of those
/// numbers being exact in `f32`.
pub fn average_hash(image: &RgbaRaster) -> (hash: String)
    requires
        image.well_formed(),
    ensures
        hash@ == spec_average_hash(image.width, image.height, image.pixels@),
        forall|word: u64|
            (forall|i: int|
                0 <= i < 64 ==> #[trigger] word_bit(word, 63 - i) == (64 * luma_thumbnail(
                    image.width,
                    image.height,
                    image.pixels@,
                )[i] >= sum_prefix(luma_thumbnail(image.width, image.height, image.pixels@), 64)))
                ==> hash@ == spec_hex_lower(#[trigger] be64_bytes(word)),
{
    let luma = thumbnail_8x8_luma(image.width, image.height, image.pixels.as_slice());
    let mut total: u32 = 0;
    let mut i: usize = 0;
    while i < 64
        invariant
            luma@.len() == 64,
            i <= 64,
            total == sum_prefix(luma@, i as int),
            total <= 255 * i,
        decreases 64 - i,
    {
        total = total + luma[i] as u32;
        i = i + 1;
    }
    let mut bits: u64 = 0;
    let mut idx: usize = 0;
    while idx < 64
        invariant
            luma@.len() == 64,
            idx <= 64,
            total == sum_prefix(luma@, 64),
            bits == mean_bits(luma@, total as int, idx as int),
        decreases 64 - idx,
    {
        if (luma[idx] as u32) * 64 >= total {
            bits = bits | (1u64 << ((63 - idx) as u64));
        }
        idx = idx + 1;
    }
    let mut word: Vec<u8> = Vec::with_capacity(8);
    push_be64(&mut word, bits);
    assert(word@ =~= be64_bytes(bits));
    proof {
        assert forall|w: u64|
            (forall|i: int|
                0 <= i < 64 ==> #[trigger] word_bit(w, 63 - i) == (64 * luma_thumbnail(
                    image.width,
                    image.height,
                    image.pixels@,
                )[i] >= sum_prefix(luma_thumbnail(image.width, image.height, image.pixels@), 64)))
                implies spec_average_hash(image.width, image.height, image.pixels@) == spec_hex_lower(
            #[trigger] be64_bytes(w),
        ) by {
            lemma_average_hash_marks_pixels_at_least_mean(image.width, image.height, image.pixels@, w);
        }
    }
    hex_encode(word.as_slice())
}

} // verus!
