//! The bit-level model of packed monochrome rows.
//!
//! A row of `width` pixels is packed into `stride = ceil(width / 8)` bytes.
//! Pixel `x` lives in byte `x / 8`, at bit `x % 8` counted from the most
//! significant bit, so the mask of pixel `x` within its byte is
//! `0x80 >> (x % 8)`.

use vstd::arithmetic::div_mod::lemma_fundamental_div_mod;
use vstd::prelude::*;

verus! {

/// Bytes per packed row of `width` pixels at one bit per pixel.
pub open spec fn spec_stride(width: int) -> int {
    (width + 7) / 8
}

/// Bit `k` of byte `b`, counted from the most significant bit.
pub open spec fn bit_get(b: u8, k: u8) -> bool {
    b & (0x80u8 >> k) != 0
}

/// Pixel `x` of a sequence of packed row bytes.
pub open spec fn row_pixel(row: Seq<u8>, x: int) -> bool {
    bit_get(row[x / 8], (x % 8) as u8)
}

/// A pixel's position within its byte: `x == 8 * (x / 8) + x % 8`.
pub proof fn lemma_pixel_byte(x: int)
    ensures
        x == 8 * (x / 8) + x % 8,
        x >= 0 ==> 0 <= x % 8 < 8 && x / 8 >= 0,
{
    lemma_fundamental_div_mod(x, 8);
}

/// The pixel at position `8 * i + k` sits in byte `i` at bit `k`.
pub proof fn lemma_pixel_index(i: int, k: int)
    requires
        0 <= k < 8,
    ensures
        (8 * i + k) / 8 == i,
        (8 * i + k) % 8 == k,
{
    let x = 8 * i + k;
    assert(x / 8 == i && x % 8 == k) by (nonlinear_arith)
        requires
            x == 8 * i + k,
            0 <= k < 8,
    ;
}

/// A pixel position in `[8 * i, 8 * i + 8)` lies in byte `i`.
pub proof fn lemma_byte_of_range(i: int, x: int)
    requires
        8 * i <= x < 8 * i + 8,
    ensures
        x / 8 == i,
        x % 8 == x - 8 * i,
{
    assert(x / 8 == i && x % 8 == x - 8 * i) by (nonlinear_arith)
        requires
            8 * i <= x < 8 * i + 8,
    ;
}

/// A pixel position below `8 * len` lies in a byte below `len`.
pub proof fn lemma_pixel_in_bounds(x: int, len: int)
    requires
        0 <= x < 8 * len,
    ensures
        0 <= x / 8 < len,
        0 <= x % 8 < 8,
{
    assert(0 <= x / 8 < len && 0 <= x % 8 < 8) by (nonlinear_arith)
        requires
            0 <= x < 8 * len,
    ;
}

/// Shifting a pixel position by whole bytes moves its byte index and keeps
/// its bit position.
pub proof fn lemma_offset_pixel(o: int, q: int)
    requires
        0 <= o,
        0 <= q,
    ensures
        (8 * o + q) / 8 == o + q / 8,
        (8 * o + q) % 8 == q % 8,
{
    lemma_fundamental_div_mod(q, 8);
    assert((8 * o + q) / 8 == o + q / 8 && (8 * o + q) % 8 == q % 8) by (nonlinear_arith)
        requires
            0 <= o,
            0 <= q,
            q == 8 * (q / 8) + q % 8,
            0 <= q % 8 < 8,
    ;
}

/// A row of `w` pixels fits its stride: `w <= 8 * stride(w) < w + 8`.
pub proof fn lemma_stride_bounds(w: int)
    requires
        0 <= w,
    ensures
        w <= 8 * spec_stride(w) < w + 8,
{
    assert(w <= 8 * ((w + 7) / 8) < w + 8) by (nonlinear_arith)
        requires
            0 <= w,
    ;
}

/// Or-ing a byte sets exactly the bits set on either side.
pub proof fn lemma_bit_or(a: u8, m: u8, k: u8)
    by (bit_vector)
    requires
        k < 8,
    ensures
        bit_get(a | m, k) == (bit_get(a, k) || bit_get(m, k)),
{
}

/// And-ing with a complement clears exactly the bits of the mask.
pub proof fn lemma_bit_and_not(a: u8, m: u8, k: u8)
    by (bit_vector)
    requires
        k < 8,
    ensures
        bit_get(a & !m, k) == (bit_get(a, k) && !bit_get(m, k)),
{
}

/// `0xff >> lo` keeps exactly the bits at positions `lo` and beyond.
pub proof fn lemma_mask_from(lo: u8, k: u8)
    by (bit_vector)
    requires
        lo < 8,
        k < 8,
    ensures
        bit_get(0xffu8 >> lo, k) == (k >= lo),
{
}

/// `!(0xff >> ro)` keeps exactly the bits at positions before `ro`.
pub proof fn lemma_mask_until(ro: u8, k: u8)
    by (bit_vector)
    requires
        ro < 8,
        k < 8,
    ensures
        bit_get(!(0xffu8 >> ro), k) == (k < ro),
{
}

/// `(0xff >> lo) & !(0xff >> ro)` keeps exactly the bits in `[lo, ro)`.
pub proof fn lemma_mask_range(lo: u8, ro: u8, k: u8)
    by (bit_vector)
    requires
        lo < 8,
        ro < 8,
        k < 8,
    ensures
        bit_get((0xffu8 >> lo) & !(0xffu8 >> ro), k) == (lo <= k < ro),
{
}

/// `0x80 >> s` holds a single set bit, at position `s`.
pub proof fn lemma_single_bit(s: u8, k: u8)
    by (bit_vector)
    requires
        s < 8,
        k < 8,
    ensures
        bit_get(0x80u8 >> s, k) == (k == s),
{
}

/// The all-ones and all-zeros bytes, bit by bit.
pub proof fn lemma_const_bits(k: u8)
    by (bit_vector)
    requires
        k < 8,
    ensures
        bit_get(0xffu8, k),
        !bit_get(0x00u8, k),
{
}

/// Merging the high part of a shifted byte: bits before `s` keep the value
/// of `b`, bits from `s` on take the top bits of `v`.
pub proof fn lemma_merge_high(b: u8, v: u8, s: u8, k: u8)
    by (bit_vector)
    requires
        1 <= s < 8,
        k < 8,
    ensures
        bit_get((b & !(0xffu8 >> s)) | (v >> s), k) == (if k >= s {
            bit_get(v, (k - s) as u8)
        } else {
            bit_get(b, k)
        }),
{
}

/// Merging the low part of a shifted byte: bits before `s` take the bottom
/// bits of `v`, bits from `s` on keep the value of `b`.
pub proof fn lemma_merge_low(b: u8, v: u8, s: u8, k: u8)
    by (bit_vector)
    requires
        1 <= s < 8,
        k < 8,
    ensures
        bit_get((b & (0xffu8 >> s)) | (v << ((8 - s) as u8)), k) == (if k < s {
            bit_get(v, (k + 8 - s) as u8)
        } else {
            bit_get(b, k)
        }),
{
}

/// Joining two neighbouring bytes under a left shift by `8 - rem`: the top
/// `rem` bits come from the tail of `a`, the rest from the head of `b`.
pub proof fn lemma_shift_join(a: u8, b: u8, rem: u8, k: u8)
    by (bit_vector)
    requires
        1 <= rem < 8,
        k < 8,
    ensures
        bit_get((a << ((8 - rem) as u8)) | (b >> rem), k) == (if k < rem {
            bit_get(a, (k + 8 - rem) as u8)
        } else {
            bit_get(b, (k - rem) as u8)
        }),
{
}

/// A left shift moves bits towards the most significant end and fills the
/// tail with zeros.
pub proof fn lemma_shl_bits(a: u8, s: u8, k: u8)
    by (bit_vector)
    requires
        1 <= s < 8,
        k < 8,
    ensures
        bit_get(a << s, k) == (k + s < 8 && bit_get(a, (k + s) as u8)),
{
}

/// The three-step exchange that reverses the bit order of a byte.
pub open spec fn spec_rev_steps(b: u8) -> u8 {
    let b1 = ((b & 0xf0u8) >> 4u8) | ((b & 0x0fu8) << 4u8);
    let b2 = ((b1 & 0xccu8) >> 2u8) | ((b1 & 0x33u8) << 2u8);
    ((b2 & 0xaau8) >> 1u8) | ((b2 & 0x55u8) << 1u8)
}

/// The exchange indeed reverses the bit order.
pub proof fn lemma_rev_steps(b: u8, k: u8)
    by (bit_vector)
    requires
        k < 8,
    ensures
        bit_get(spec_rev_steps(b), k) == bit_get(b, (7 - k) as u8),
{
}

/// Two bytes that agree on all eight bits are equal.
pub proof fn lemma_byte_from_bits(a: u8, b: u8)
    by (bit_vector)
    requires
        bit_get(a, 0) == bit_get(b, 0),
        bit_get(a, 1) == bit_get(b, 1),
        bit_get(a, 2) == bit_get(b, 2),
        bit_get(a, 3) == bit_get(b, 3),
        bit_get(a, 4) == bit_get(b, 4),
        bit_get(a, 5) == bit_get(b, 5),
        bit_get(a, 6) == bit_get(b, 6),
        bit_get(a, 7) == bit_get(b, 7),
    ensures
        a == b,
{
}

/// Two rows of equal length whose pixels all agree are equal.
pub proof fn lemma_row_from_pixels(a: Seq<u8>, b: Seq<u8>)
    requires
        a.len() == b.len(),
        forall|x: int| 0 <= x < 8 * a.len() ==> row_pixel(a, x) == row_pixel(b, x),
    ensures
        a == b,
{
    assert forall|i: int| 0 <= i < a.len() implies a[i] == b[i] by {
        assert forall|k: u8| k < 8 implies bit_get(a[i], k) == bit_get(b[i], k) by {
            let x = 8 * i + k;
            lemma_pixel_index(i, k as int);
            assert(0 <= x < 8 * a.len()) by (nonlinear_arith)
                requires
                    x == 8 * i + k,
                    0 <= i < a.len(),
                    0 <= k < 8,
            ;
            assert(row_pixel(a, x) == row_pixel(b, x));
        }
        lemma_byte_from_bits(a[i], b[i]);
    }
    assert(a =~= b);
}

/// Replacing byte `i` of a row changes only the pixels of that byte.
pub proof fn lemma_row_pixel_update(row: Seq<u8>, i: int, v: u8, x: int)
    requires
        0 <= i < row.len(),
        0 <= x < 8 * row.len(),
    ensures
        row_pixel(row.update(i, v), x) == if x / 8 == i {
            bit_get(v, (x % 8) as u8)
        } else {
            row_pixel(row, x)
        },
{
    lemma_pixel_byte(x);
    assert(x / 8 < row.len()) by (nonlinear_arith)
        requires
            0 <= x < 8 * row.len(),
            x == 8 * (x / 8) + x % 8,
            0 <= x % 8 < 8,
    ;
}

} // verus!
