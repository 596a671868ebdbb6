//! The packed one-bit-per-pixel color engine: range fills, bitmap row
//! copies and in-place row mirroring, each correct at bit granularity.

use crate::bits::bit_get;
use crate::bits::lemma_bit_and_not;
use crate::bits::lemma_bit_or;
use crate::bits::lemma_byte_of_range;
use crate::bits::lemma_const_bits;
use crate::bits::lemma_mask_from;
use crate::bits::lemma_mask_range;
use crate::bits::lemma_mask_until;
use crate::bits::lemma_merge_high;
use crate::bits::lemma_merge_low;
use crate::bits::lemma_offset_pixel;
use crate::bits::lemma_pixel_byte;
use crate::bits::lemma_pixel_in_bounds;
use crate::bits::lemma_rev_steps;
use crate::bits::lemma_row_from_pixels;
use crate::bits::lemma_shift_join;
use crate::bits::lemma_shl_bits;
use crate::bits::lemma_single_bit;
use crate::bits::row_pixel;
use crate::bits::spec_rev_steps;
use crate::bits::spec_stride;
use vstd::prelude::*;

verus! {

/// The two variants of the one-bit-per-pixel format: `White` sets bits,
/// `Black` clears them.
#[derive(Copy, Clone, PartialEq, Eq, Structural, Debug)]
pub enum BlackWhite {
    White,
    Black,
}

/// What a range fill leaves behind: every pixel in `[left, right)` carries
/// the fill value, every other pixel of the row is untouched.
pub open spec fn row_filled(
    old_row: Seq<u8>,
    new_row: Seq<u8>,
    left: int,
    right: int,
    white: bool,
) -> bool {
    &&& new_row.len() == old_row.len()
    &&& forall|x: int|
        0 <= x < 8 * old_row.len() ==> row_pixel(new_row, x) == (if left <= x < right {
            white
        } else {
            row_pixel(old_row, x)
        })
}

/// What a bitmap row copy leaves behind: destination pixel `x + t` carries
/// source pixel `t` for every `t` in `[left, right)`, and every pixel
/// outside `[x + left, x + right)` is untouched.
pub open spec fn row_blitted(
    old_row: Seq<u8>,
    new_row: Seq<u8>,
    src: Seq<u8>,
    x: int,
    left: int,
    right: int,
) -> bool {
    &&& new_row.len() == old_row.len()
    &&& forall|p: int|
        0 <= p < 8 * old_row.len() ==> row_pixel(new_row, p) == (if x + left <= p < x + right {
            row_pixel(src, p - x)
        } else {
            row_pixel(old_row, p)
        })
}

/// Two bitmap row copies over adjacent source ranges compose into one copy
/// over the joined range.
pub proof fn lemma_blit_compose(
    a: Seq<u8>,
    b: Seq<u8>,
    c: Seq<u8>,
    src: Seq<u8>,
    x: int,
    left: int,
    mid: int,
    right: int,
)
    requires
        left <= mid <= right,
        row_blitted(a, b, src, x, left, mid),
        row_blitted(b, c, src, x, mid, right),
    ensures
        row_blitted(a, c, src, x, left, right),
{
    assert forall|p: int| 0 <= p < 8 * a.len() implies row_pixel(c, p) == (if x + left <= p < x
        + right {
        row_pixel(src, p - x)
    } else {
        row_pixel(a, p)
    }) by {
        assert(row_pixel(b, p) == (if x + left <= p < x + mid {
            row_pixel(src, p - x)
        } else {
            row_pixel(a, p)
        }));
        assert(row_pixel(c, p) == (if x + mid <= p < x + right {
            row_pixel(src, p - x)
        } else {
            row_pixel(b, p)
        }));
    }
}

/// What mirroring a packed row in place leaves behind: within the row that
/// starts at bit offset `base`, pixel `i` takes the old value of pixel
/// `width - 1 - i`, the padding bits after the `width` used bits are clear,
/// and everything outside the row's `stride` bytes is untouched.
pub open spec fn row_mirrored_at(
    old_buf: Seq<u8>,
    new_buf: Seq<u8>,
    base: int,
    width: int,
) -> bool {
    &&& new_buf.len() == old_buf.len()
    &&& forall|i: int|
        0 <= i < width ==> #[trigger] row_pixel(new_buf, base + i) == row_pixel(
            old_buf,
            base + width - 1 - i,
        )
    &&& forall|i: int| width <= i < 8 * spec_stride(width) ==> !#[trigger] row_pixel(new_buf, base + i)
    &&& forall|p: int|
        0 <= p < 8 * old_buf.len() && !(base <= p < base + 8 * spec_stride(width)) ==> row_pixel(
            new_buf,
            p,
        ) == row_pixel(old_buf, p)
}

/// `rb` holds the bits of `a` in the opposite order.
pub open spec fn byte_rev(a: u8, rb: u8) -> bool {
    forall|k: u8| k < 8 ==> bit_get(rb, k) == bit_get(a, (7 - k) as u8)
}

/// Reverse the bit order of one byte by three masked exchanges.
fn reverse_byte(b: u8) -> (r: u8)
    ensures
        byte_rev(b, r),
{
    let b1 = ((b & 0xf0u8) >> 4u8) | ((b & 0x0fu8) << 4u8);
    let b2 = ((b1 & 0xccu8) >> 2u8) | ((b1 & 0x33u8) << 2u8);
    let r = ((b2 & 0xaau8) >> 1u8) | ((b2 & 0x55u8) << 1u8);
    proof {
        assert(r == spec_rev_steps(b));
        assert forall|k: u8| k < 8 implies bit_get(r, k) == bit_get(b, (7 - k) as u8) by {
            lemma_rev_steps(b, k);
        }
    }
    r
}

/// A pixel position before byte `o`, or past byte `o + st`, lies outside
/// the byte range `[o, o + st)`.
proof fn lemma_pixel_outside_row(o: int, st: int, p: int)
    requires
        0 <= p,
        0 <= o,
        0 <= st,
        !(8 * o <= p < 8 * (o + st)),
    ensures
        !(o <= p / 8 < o + st),
        8 * (p / 8) <= p < 8 * (p / 8) + 8,
{
    assert(!(o <= p / 8 < o + st) && 8 * (p / 8) <= p < 8 * (p / 8) + 8) by (nonlinear_arith)
        requires
            0 <= p,
            0 <= o,
            0 <= st,
            !(8 * o <= p < 8 * (o + st)),
    ;
}

/// Reverse the bit order of the `width`-pixel row that starts at byte
/// `row_start`, in place: swap bit-reversed bytes working inward from both
/// ends, then, when `width` is not a multiple of eight, shift the row left
/// so that the first pixel again sits at the top bit of the first byte and
/// the padding bits end up clear.
pub fn mirror_row_at(buffer: &mut Vec<u8>, row_start: usize, width: usize)
    requires
        width + 7 <= usize::MAX,
        row_start as int + spec_stride(width as int) <= old(buffer)@.len(),
    ensures
        final(buffer)@.len() == old(buffer)@.len(),
        row_mirrored_at(old(buffer)@, final(buffer)@, 8 * row_start as int, width as int),
{
    let stride = (width + 7) / 8;
    let o = row_start;
    let n = buffer.len();
    let ghost buf0 = buffer@;
    proof {
        assert(buf0.len() == n as int);
    }
    let ghost oo = o as int;
    let ghost st = stride as int;
    let mut a: usize = 0;
    let mut b: usize = stride;
    while a + 1 < b
        invariant
            a <= b <= stride,
            b == stride - a,
            oo == o as int,
            st == stride as int,
            oo + st <= buf0.len(),
            buf0.len() <= usize::MAX as int,
            buffer@.len() == buf0.len(),
            forall|j: int| 0 <= j < a ==> #[trigger] byte_rev(buf0[oo + st - 1 - j], buffer@[oo + j]),
            forall|j: int| b <= j < st ==> #[trigger] byte_rev(buf0[oo + st - 1 - j], buffer@[oo + j]),
            forall|j: int| a <= j < b ==> #[trigger] buffer@[oo + j] == buf0[oo + j],
            forall|j: int| 0 <= j < buf0.len() && !(oo <= j < oo + st) ==> buffer@[j] == buf0[j],
        decreases b - a,
    {
        let ghost pre = buffer@;
        let va = reverse_byte(buffer[o + a]);
        let vb = reverse_byte(buffer[o + b - 1]);
        buffer[o + a] = vb;
        buffer[o + b - 1] = va;
        proof {
            assert(buffer@ == pre.update(oo + a, vb).update(oo + b - 1, va));
            assert(pre[oo + a] == buf0[oo + a]);
            assert(oo + (b - 1) == oo + b - 1);
            assert(pre[oo + (b - 1)] == buf0[oo + (b - 1)]);
            assert(byte_rev(buf0[oo + a], va));
            assert(byte_rev(buf0[oo + b - 1], vb));
            assert forall|j: int| 0 <= j < a + 1 implies #[trigger] byte_rev(
                buf0[oo + st - 1 - j],
                buffer@[oo + j],
            ) by {
                if j == a {
                    assert(buffer@[oo + j] == vb);
                    assert(st - 1 - j == b - 1);
                } else {
                    assert(buffer@[oo + j] == pre[oo + j]);
                }
            }
            assert forall|j: int| b - 1 <= j < st implies #[trigger] byte_rev(
                buf0[oo + st - 1 - j],
                buffer@[oo + j],
            ) by {
                if j == b - 1 {
                    assert(buffer@[oo + j] == va);
                    assert(st - 1 - j == a as int);
                } else {
                    assert(buffer@[oo + j] == pre[oo + j]);
                }
            }
        }
        a += 1;
        b -= 1;
    }
    if a + 1 == b {
        let ghost pre = buffer@;
        let v = reverse_byte(buffer[o + a]);
        buffer[o + a] = v;
        proof {
            assert(buffer@ == pre.update(oo + a, v));
            assert(st - 1 - a == a as int);
        }
    }
    let ghost buf1 = buffer@;
    proof {
        assert forall|j: int| 0 <= j < st implies #[trigger] byte_rev(buf0[oo + st - 1 - j], buf1[oo + j]) by {
        }
        assert forall|j: int| 0 <= j < buf0.len() && !(oo <= j < oo + st) implies buf1[j]
            == buf0[j] by {}
    }
    // After the swap pass the whole `8 * stride`-bit row is bit-reversed.
    proof {
        assert forall|q: int| 0 <= q < 8 * st implies #[trigger] row_pixel(buf1, 8 * oo + q) == row_pixel(
            buf0,
            8 * oo + (8 * st - 1 - q),
        ) by {
            lemma_pixel_in_bounds(q, st);
            let j = q / 8;
            let k = q % 8;
            lemma_pixel_byte(q);
            lemma_offset_pixel(oo, q);
            let q2 = 8 * st - 1 - q;
            assert(q2 == 8 * (st - 1 - j) + (7 - k));
            lemma_offset_pixel(oo, q2);
            lemma_byte_of_range(st - 1 - j, q2);
            assert(byte_rev(buf0[oo + st - 1 - j], buf1[oo + j]));
            assert(bit_get(buf1[oo + j], k as u8) == bit_get(
                buf0[oo + st - 1 - j],
                (7 - k) as u8,
            ));
        }
    }
    let rem = width % 8;
    if rem != 0 {
        // The row does not fill its last byte: shift everything left by the
        // width of the padding, so the first pixel lands on the top bit.
        let rem8 = rem as u8;
        let s8 = (8 - rem) as u8;
        proof {
            assert(8 * st == width + s8 && st >= 1) by (nonlinear_arith)
                requires
                    st == (width as int + 7) / 8,
                    rem8 == (width as int) % 8,
                    1 <= rem8 < 8,
                    s8 == 8 - rem8,
                    width >= 0,
            ;
        }
        let mut i: usize = 0;
        while i + 1 < stride
            invariant
                0 <= i < stride,
                oo == o as int,
                st == stride as int,
                oo + st <= buf0.len(),
                buf0.len() <= usize::MAX as int,
                buffer@.len() == buf0.len(),
                buf1.len() == buf0.len(),
                1 <= rem8 < 8,
                s8 == 8 - rem8,
                forall|p: int|
                    0 <= p < 8 * i ==> #[trigger] row_pixel(buffer@, 8 * oo + p) == row_pixel(
                        buf1,
                        8 * oo + p + s8,
                    ),
                forall|j: int| i <= j < st ==> #[trigger] buffer@[oo + j] == buf1[oo + j],
                forall|j: int| 0 <= j < buf0.len() && !(oo <= j < oo + st) ==> buffer@[j] == buf1[j],
            decreases stride - 1 - i,
        {
            let hi = buffer[o + i];
            let lo_byte = buffer[o + i + 1];
            let v = (hi << s8) | (lo_byte >> rem8);
            let ghost pre = buffer@;
            buffer[o + i] = v;
            proof {
                assert(buffer@ == pre.update(oo + i, v));
                assert forall|p: int| 0 <= p < 8 * (i + 1) implies #[trigger] row_pixel(buffer@, 8 * oo + p)
                    == row_pixel(buf1, 8 * oo + p + s8) by {
                    lemma_pixel_in_bounds(p, i as int + 1);
                    lemma_pixel_byte(p);
                    lemma_offset_pixel(oo, p);
                    if p < 8 * i {
                        lemma_pixel_in_bounds(p, i as int);
                        assert(row_pixel(buffer@, 8 * oo + p) == row_pixel(pre, 8 * oo + p));
                    } else {
                        let k = p % 8;
                        assert(p / 8 == i as int);
                        lemma_shift_join(hi, lo_byte, rem8, k as u8);
                        lemma_offset_pixel(oo, p + s8);
                        if k < rem8 {
                            lemma_byte_of_range(i as int, p + s8);
                        } else {
                            lemma_byte_of_range(i as int + 1, p + s8);
                        }
                    }
                }
                assert forall|j: int| i + 1 <= j < st implies #[trigger] buffer@[oo + j] == buf1[oo + j] by {}
            }
            i += 1;
        }
        let last = buffer[o + stride - 1];
        let ghost pre = buffer@;
        buffer[o + stride - 1] = last << s8;
        proof {
            assert(buffer@ == pre.update(oo + st - 1, last << s8));
            assert forall|p: int| 0 <= p < 8 * st implies #[trigger] row_pixel(buffer@, 8 * oo + p) == (if p
                + s8 < 8 * st {
                row_pixel(buf1, 8 * oo + p + s8)
            } else {
                false
            }) by {
                lemma_pixel_in_bounds(p, st);
                lemma_pixel_byte(p);
                lemma_offset_pixel(oo, p);
                if p / 8 == st - 1 {
                    let k = p % 8;
                    lemma_shl_bits(last, s8, k as u8);
                    if k + s8 < 8 {
                        lemma_offset_pixel(oo, p + s8);
                        lemma_byte_of_range(st - 1, p + s8);
                    }
                } else {
                    assert(row_pixel(buffer@, 8 * oo + p) == row_pixel(pre, 8 * oo + p));
                    assert(p < 8 * (st - 1));
                    lemma_offset_pixel(oo, p + s8);
                    lemma_pixel_in_bounds(p + s8, st);
                }
            }
            assert forall|j: int| 0 <= j < buf0.len() && !(oo <= j < oo + st) implies buffer@[j]
                == buf1[j] by {
                assert(buffer@[j] == pre[j]);
            }
        }
    }
    // Assemble the mirrored-row contract from the two passes.
    proof {
        let w = width as int;
        assert(spec_stride(w) == st);
        if rem == 0 {
            assert(8 * st == w) by (nonlinear_arith)
                requires
                    st == (w + 7) / 8,
                    w % 8 == 0,
                    w >= 0,
            ;
            assert(buffer@ == buf1);
        }
        assert forall|i: int| 0 <= i < w implies #[trigger] row_pixel(buffer@, 8 * oo + i) == row_pixel(
            buf0,
            8 * oo + (w - 1 - i),
        ) by {
            let q = i + (8 * st - w);
            assert(row_pixel(buf1, 8 * oo + q) == row_pixel(buf0, 8 * oo + (8 * st - 1 - q)));
            assert(8 * st - 1 - q == w - 1 - i);
            assert(row_pixel(buffer@, 8 * oo + i) == row_pixel(buf1, 8 * oo + q));
        }
        assert forall|i: int| w <= i < 8 * st implies !#[trigger] row_pixel(buffer@, 8 * oo + i) by {
            assert(rem != 0);
            assert(!(i + (8 * st - w) < 8 * st));
            assert(row_pixel(buffer@, 8 * oo + i) == false);
        }
        assert forall|p: int|
            0 <= p < 8 * buf0.len() && !(8 * oo <= p < 8 * oo + 8 * st) implies row_pixel(
            buffer@,
            p,
        ) == row_pixel(buf0, p) by {
            lemma_pixel_outside_row(oo, st, p);
            lemma_pixel_in_bounds(p, buf0.len() as int);
            assert(buf1[p / 8] == buf0[p / 8]);
            assert(buffer@[p / 8] == buf1[p / 8]);
        }
        assert forall|i: int| 0 <= i < w implies #[trigger] row_pixel(buffer@, 8 * (row_start as int) + i)
            == row_pixel(buf0, 8 * (row_start as int) + w - 1 - i) by {
            assert(row_pixel(buffer@, 8 * oo + i) == row_pixel(buf0, 8 * oo + (w - 1 - i)));
        }
    }
}
/// bits of the byte and all other bytes stay as they were.
fn apply_mask_byte(buffer: &mut Vec<u8>, i: usize, mask: u8, white: bool)
    requires
        i < old(buffer)@.len(),
    ensures
        final(buffer)@.len() == old(buffer)@.len(),
        forall|x: int|
            0 <= x < 8 * old(buffer)@.len() ==> row_pixel(final(buffer)@, x) == (if x / 8 == i
                && bit_get(mask, (x % 8) as u8) {
                white
            } else {
                row_pixel(old(buffer)@, x)
            }),
{
    let ghost old_buf = buffer@;
    let b = buffer[i];
    let v = if white {
        b | mask
    } else {
        b & !mask
    };
    buffer[i] = v;
    proof {
        assert(buffer@ == old_buf.update(i as int, v));
        assert forall|x: int| 0 <= x < 8 * old_buf.len() implies row_pixel(buffer@, x) == (if x / 8
            == i && bit_get(mask, (x % 8) as u8) {
            white
        } else {
            row_pixel(old_buf, x)
        }) by {
            lemma_pixel_in_bounds(x, old_buf.len() as int);
            let k = (x % 8) as u8;
            if x / 8 == i {
                if white {
                    lemma_bit_or(b, mask, k);
                } else {
                    lemma_bit_and_not(b, mask, k);
                }
            }
        }
    }
}

/// Set or clear the single pixel `p` of a packed row.
fn write_pixel(buffer: &mut Vec<u8>, p: usize, v: bool)
    requires
        p < 8 * old(buffer)@.len(),
    ensures
        final(buffer)@.len() == old(buffer)@.len(),
        forall|x: int|
            0 <= x < 8 * old(buffer)@.len() ==> row_pixel(final(buffer)@, x) == (if x == p {
                v
            } else {
                row_pixel(old(buffer)@, x)
            }),
{
    proof {
        lemma_pixel_in_bounds(p as int, old(buffer)@.len() as int);
    }
    let i = p / 8;
    let k = (p % 8) as u8;
    let mask = 0x80u8 >> k;
    let ghost pre = buffer@;
    apply_mask_byte(buffer, i, mask, v);
    proof {
        assert forall|x: int| 0 <= x < 8 * pre.len() implies row_pixel(buffer@, x) == (if x == p {
            v
        } else {
            row_pixel(pre, x)
        }) by {
            lemma_pixel_in_bounds(x, pre.len() as int);
            lemma_single_bit(k, (x % 8) as u8);
            lemma_pixel_byte(x);
            lemma_pixel_byte(p as int);
        }
    }
}

/// Write the top bits of `value` into the tail of byte `i`: bit positions
/// from `shift` on take bits `0 ..= 7 - shift` of `value`, positions before
/// `shift` keep their old content.
fn merge_high(buffer: &mut Vec<u8>, i: usize, value: u8, shift: u8)
    requires
        i < old(buffer)@.len(),
        1 <= shift < 8,
    ensures
        final(buffer)@.len() == old(buffer)@.len(),
        forall|p: int|
            0 <= p < 8 * old(buffer)@.len() ==> row_pixel(final(buffer)@, p) == (if p / 8 == i && p
                % 8 >= shift {
                bit_get(value, (p % 8 - shift) as u8)
            } else {
                row_pixel(old(buffer)@, p)
            }),
{
    let ghost old_buf = buffer@;
    let b = buffer[i];
    let v = (b & !(0xffu8 >> shift)) | (value >> shift);
    buffer[i] = v;
    proof {
        assert(buffer@ == old_buf.update(i as int, v));
        assert forall|p: int| 0 <= p < 8 * old_buf.len() implies row_pixel(buffer@, p) == (if p / 8
            == i && p % 8 >= shift {
            bit_get(value, (p % 8 - shift) as u8)
        } else {
            row_pixel(old_buf, p)
        }) by {
            lemma_pixel_in_bounds(p, old_buf.len() as int);
            if p / 8 == i {
                lemma_merge_high(b, value, shift, (p % 8) as u8);
            }
        }
    }
}

/// Write the bottom bits of `value` into the head of byte `i`: bit positions
/// before `shift` take bits `8 - shift ..= 7` of `value`, positions from
/// `shift` on keep their old content.
fn merge_low(buffer: &mut Vec<u8>, i: usize, value: u8, shift: u8)
    requires
        i < old(buffer)@.len(),
        1 <= shift < 8,
    ensures
        final(buffer)@.len() == old(buffer)@.len(),
        forall|p: int|
            0 <= p < 8 * old(buffer)@.len() ==> row_pixel(final(buffer)@, p) == (if p / 8 == i && p
                % 8 < shift {
                bit_get(value, (p % 8 + 8 - shift) as u8)
            } else {
                row_pixel(old(buffer)@, p)
            }),
{
    let ghost old_buf = buffer@;
    let b = buffer[i];
    let v = (b & (0xffu8 >> shift)) | (value << ((8 - shift) as u8));
    buffer[i] = v;
    proof {
        assert(buffer@ == old_buf.update(i as int, v));
        assert forall|p: int| 0 <= p < 8 * old_buf.len() implies row_pixel(buffer@, p) == (if p / 8
            == i && p % 8 < shift {
            bit_get(value, (p % 8 + 8 - shift) as u8)
        } else {
            row_pixel(old_buf, p)
        }) by {
            lemma_pixel_in_bounds(p, old_buf.len() as int);
            if p / 8 == i {
                lemma_merge_low(b, value, shift, (p % 8) as u8);
            }
        }
    }
}

/// Mirroring a row twice restores it: after two passes every one of the
/// `width` used pixels holds its original value again, everything outside
/// the row is untouched, and when the row's padding bits were clear to begin
/// with the row is restored byte for byte.
pub proof fn lemma_mirror_round_trip(r0: Seq<u8>, r1: Seq<u8>, r2: Seq<u8>, base: int, width: int)
    requires
        0 <= width,
        0 <= base,
        base + 8 * spec_stride(width) <= 8 * r0.len(),
        row_mirrored_at(r0, r1, base, width),
        row_mirrored_at(r1, r2, base, width),
    ensures
        forall|i: int| 0 <= i < width ==> #[trigger] row_pixel(r2, base + i) == row_pixel(r0, base + i),
        forall|p: int|
            0 <= p < 8 * r0.len() && !(base <= p < base + 8 * spec_stride(width))
                ==> #[trigger] row_pixel(r2, p) == row_pixel(r0, p),
        (forall|i: int|
            width <= i < 8 * spec_stride(width) ==> !#[trigger] row_pixel(r0, base + i)) ==> r2
            == r0,
{
    assert forall|i: int| 0 <= i < width implies #[trigger] row_pixel(r2, base + i) == row_pixel(
        r0,
        base + i,
    ) by {
        assert(row_pixel(r2, base + i) == row_pixel(r1, base + (width - 1 - i)));
        assert(row_pixel(r1, base + (width - 1 - i)) == row_pixel(
            r0,
            base + (width - 1 - (width - 1 - i)),
        ));
    }
    if forall|i: int| width <= i < 8 * spec_stride(width) ==> !#[trigger] row_pixel(r0, base + i) {
        assert forall|p: int| 0 <= p < 8 * r0.len() implies row_pixel(r2, p) == row_pixel(
            r0,
            p,
        ) by {
            if base <= p < base + 8 * spec_stride(width) {
                let i = p - base;
                assert(p == base + i);
                if i < width {
                    assert(row_pixel(r2, base + i) == row_pixel(r0, base + i));
                } else {
                    assert(!row_pixel(r2, base + i));
                    assert(!row_pixel(r0, base + i));
                }
            }
        }
        lemma_row_from_pixels(r2, r0);
    }
}

impl BlackWhite {
    /// Whether this variant fills with set bits.
    pub open spec fn spec_is_white(self) -> bool {
        self is White
    }

    /// The number of bits one pixel occupies in this format.
    pub fn bits_per_pixel() -> (r: usize)
        ensures
            r == 1,
    {
        1
    }

    /// Reverse the bit order of a packed row of `width` pixels, in place:
    /// afterwards pixel `i` holds what pixel `width - 1 - i` held before,
    /// and the padding bits after the `width` used bits are clear.
    pub fn mirror_x(buffer: &mut Vec<u8>, width: usize)
        requires
            width + 7 <= usize::MAX,
            old(buffer)@.len() == spec_stride(width as int),
        ensures
            final(buffer)@.len() == old(buffer)@.len(),
            row_mirrored_at(old(buffer)@, final(buffer)@, 0, width as int),
    {
        mirror_row_at(buffer, 0, width);
    }

    /// Fill the half-open pixel range `[left, right)` of a packed row with
    /// this color: `White` sets the bits, `Black` clears them. A range that
    /// is empty or reversed leaves the row untouched.
    pub fn fill(&self, buffer: &mut Vec<u8>, left: i32, right: i32)
        requires
            left < right ==> 0 <= left && right as int <= 8 * old(buffer)@.len(),
        ensures
            final(buffer)@.len() == old(buffer)@.len(),
            row_filled(
                old(buffer)@,
                final(buffer)@,
                left as int,
                right as int,
                self.spec_is_white(),
            ),
    {
        if left >= right {
            return ;
        }
        let white = match self {
            BlackWhite::White => true,
            BlackWhite::Black => false,
        };
        let l = left as usize;
        let r = right as usize;
        let li = l / 8;
        let ri = r / 8;
        let lo = (l % 8) as u8;
        let ro = (r % 8) as u8;
        proof {
            lemma_pixel_byte(l as int);
            lemma_pixel_byte(r as int);
            lemma_pixel_in_bounds(l as int, old(buffer)@.len() as int);
        }
        if li == ri {
            // Both range ends sit in the same byte.
            let mask = (0xffu8 >> lo) & !(0xffu8 >> ro);
            let ghost pre = buffer@;
            apply_mask_byte(buffer, li, mask, white);
            proof {
                assert forall|x: int| 0 <= x < 8 * pre.len() implies row_pixel(buffer@, x) == (
                if l <= x < r {
                    white
                } else {
                    row_pixel(pre, x)
                }) by {
                    lemma_pixel_in_bounds(x, pre.len() as int);
                    lemma_mask_range(lo, ro, (x % 8) as u8);
                    if l <= x < r {
                        lemma_byte_of_range(li as int, x);
                    } else if x / 8 == li {
                        lemma_pixel_byte(x);
                    }
                }
            }
        } else {
            // The range crosses at least one byte boundary: a partial first
            // byte, whole bytes in the middle, and a partial last byte that
            // is skipped entirely when the range ends on a byte boundary.
            let ghost buf0 = buffer@;
            apply_mask_byte(buffer, li, 0xffu8 >> lo, white);
            let ghost buf1 = buffer@;
            proof {
                assert forall|x: int| 0 <= x < 8 * buf0.len() implies row_pixel(buf1, x) == (
                if l <= x < 8 * (li + 1) {
                    white
                } else {
                    row_pixel(buf0, x)
                }) by {
                    lemma_pixel_in_bounds(x, buf0.len() as int);
                    lemma_mask_from(lo, (x % 8) as u8);
                    if l <= x < 8 * (li + 1) {
                        lemma_byte_of_range(li as int, x);
                    } else if x / 8 == li {
                        lemma_pixel_byte(x);
                    }
                }
            }
            let fill_byte: u8 = if white {
                0xff
            } else {
                0x00
            };
            let mut i = li + 1;
            while i < ri
                invariant
                    li + 1 <= i <= ri,
                    ri <= buffer@.len(),
                    buffer@.len() == buf1.len(),
                    forall|x: int|
                        0 <= x < 8 * buf1.len() ==> row_pixel(buffer@, x) == (if 8 * (li + 1) <= x
                            < 8 * i {
                            white
                        } else {
                            row_pixel(buf1, x)
                        }),
                    white == self.spec_is_white(),
                    fill_byte == if white {
                        0xffu8
                    } else {
                        0x00u8
                    },
                decreases ri - i,
            {
                let ghost prev = buffer@;
                buffer[i] = fill_byte;
                proof {
                    assert(buffer@ == prev.update(i as int, fill_byte));
                    assert forall|x: int| 0 <= x < 8 * buf1.len() implies row_pixel(buffer@, x)
                        == (if 8 * (li + 1) <= x < 8 * (i + 1) {
                        white
                    } else {
                        row_pixel(buf1, x)
                    }) by {
                        lemma_pixel_in_bounds(x, buf1.len() as int);
                        lemma_pixel_byte(x);
                        lemma_const_bits((x % 8) as u8);
                        if 8 * i <= x < 8 * (i + 1) {
                            lemma_byte_of_range(i as int, x);
                            assert(buffer@[x / 8] == fill_byte);
                            assert(row_pixel(buffer@, x) == white);
                        } else {
                            assert(x / 8 != i);
                            assert(buffer@[x / 8] == prev[x / 8]);
                            assert(row_pixel(buffer@, x) == row_pixel(prev, x));
                            assert(row_pixel(prev, x) == (if 8 * (li + 1) <= x < 8 * i {
                                white
                            } else {
                                row_pixel(buf1, x)
                            }));
                        }
                    }
                }
                i += 1;
            }
            let ghost buf2 = buffer@;
            if ro != 0 {
                proof {
                    lemma_pixel_in_bounds((r - 1) as int, buf0.len() as int);
                    lemma_byte_of_range(ri as int, (r - 1) as int);
                }
                apply_mask_byte(buffer, ri, !(0xffu8 >> ro), white);
                proof {
                    assert forall|x: int| 0 <= x < 8 * buf2.len() implies row_pixel(buffer@, x)
                        == (if 8 * ri <= x < r {
                        white
                    } else {
                        row_pixel(buf2, x)
                    }) by {
                        lemma_pixel_in_bounds(x, buf2.len() as int);
                        lemma_mask_until(ro, (x % 8) as u8);
                        if 8 * ri <= x < r {
                            lemma_byte_of_range(ri as int, x);
                        } else if x / 8 == ri {
                            lemma_pixel_byte(x);
                        }
                    }
                }
            }
            proof {
                assert forall|x: int| 0 <= x < 8 * buf0.len() implies row_pixel(buffer@, x) == (
                if l <= x < r {
                    white
                } else {
                    row_pixel(buf0, x)
                }) by {
                    lemma_pixel_in_bounds(x, buf0.len() as int);
                    lemma_pixel_byte(x);
                }
            }
        }
    }

    /// Copy source bits `[left, right)` of a packed bitmap row into the
    /// buffer at pixel offset `x`, one pixel at a time. The bit-by-bit
    /// method of the row copy, used on its own for spans inside a single
    /// source byte and for the unaligned edges of longer spans.
    pub fn render_bitmap_row_naive(
        &self,
        buffer: &mut Vec<u8>,
        x: i32,
        bitmap: &[u8],
        left: i32,
        right: i32,
    )
        requires
            8 * old(buffer)@.len() <= i32::MAX as int,
            left < right ==> 0 <= left && right as int <= 8 * bitmap@.len() && 0 <= x + left && x
                + right <= 8 * old(buffer)@.len(),
        ensures
            final(buffer)@.len() == old(buffer)@.len(),
            row_blitted(
                old(buffer)@,
                final(buffer)@,
                bitmap@,
                x as int,
                left as int,
                right as int,
            ),
    {
        if left >= right {
            return ;
        }
        let r = right as usize;
        let mut t = left as usize;
        let ghost buf0 = buffer@;
        while t < r
            invariant
                left as int <= t as int <= r as int,
                r == right as int,
                0 <= left,
                right as int <= 8 * bitmap@.len(),
                0 <= x + left,
                x + right <= 8 * buf0.len(),
                8 * buf0.len() <= i32::MAX as int,
                buffer@.len() == buf0.len(),
                forall|p: int|
                    0 <= p < 8 * buf0.len() ==> row_pixel(buffer@, p) == (if x + left <= p < x
                        + t {
                        row_pixel(bitmap@, p - x)
                    } else {
                        row_pixel(buf0, p)
                    }),
            decreases r - t,
        {
            proof {
                lemma_pixel_in_bounds(t as int, bitmap@.len() as int);
            }
            let si = t / 8;
            let sk = (t % 8) as u8;
            let sbit = (bitmap[si] & (0x80u8 >> sk)) != 0;
            let p = (x + t as i32) as usize;
            let ghost prev = buffer@;
            write_pixel(buffer, p, sbit);
            proof {
                assert(sbit == row_pixel(bitmap@, t as int));
                assert forall|q: int| 0 <= q < 8 * buf0.len() implies row_pixel(buffer@, q) == (
                if x + left <= q < x + t + 1 {
                    row_pixel(bitmap@, q - x)
                } else {
                    row_pixel(buf0, q)
                }) by {
                    assert(row_pixel(buffer@, q) == (if q == p {
                        sbit
                    } else {
                        row_pixel(prev, q)
                    }));
                }
            }
            t += 1;
        }
    }

    /// Copy source bits `[left, right)` of a packed bitmap row into the
    /// buffer at pixel offset `x`. Spans inside a single source byte go bit
    /// by bit; longer spans copy whole source bytes, merging each into two
    /// destination bytes by shift and mask when the destination is not byte
    /// aligned, and byte by byte when it is, with bit-by-bit handling for
    /// the partial bytes at either edge. No bit outside
    /// `[x + left, x + right)` is written.
    pub fn render_bitmap_row(
        &self,
        buffer: &mut Vec<u8>,
        x: i32,
        bitmap: &[u8],
        left: i32,
        right: i32,
    )
        requires
            8 * old(buffer)@.len() <= i32::MAX as int,
            left < right ==> 0 <= left && right as int <= 8 * bitmap@.len() && 0 <= x + left && x
                + right <= 8 * old(buffer)@.len(),
        ensures
            final(buffer)@.len() == old(buffer)@.len(),
            row_blitted(
                old(buffer)@,
                final(buffer)@,
                bitmap@,
                x as int,
                left as int,
                right as int,
            ),
    {
        if left >= right {
            return ;
        }
        let l0 = left as usize;
        let r = right as usize;
        if l0 / 8 == r / 8 {
            // The whole span sits in one source byte.
            self.render_bitmap_row_naive(buffer, x, bitmap, left, right);
            return ;
        }
        let ghost buf0 = buffer@;
        let mut l = l0;
        proof {
            lemma_pixel_byte(l0 as int);
            lemma_pixel_byte(r as int);
        }
        if l % 8 != 0 {
            // The span starts inside a source byte: finish that byte bit by
            // bit, so the rest starts byte aligned.
            let next = l + (8 - l % 8);
            self.render_bitmap_row_naive(buffer, x, bitmap, l as i32, next as i32);
            l = next;
        }
        let ghost buf1 = buffer@;
        let ghost m1 = l as int;
        proof {
            assert(row_blitted(buf0, buf1, bitmap@, x as int, left as int, m1));
            assert(l % 8 == 0);
            assert(l as int <= r as int);
        }
        let d0 = (x + l as i32) as usize;
        let shift = (d0 % 8) as u8;
        if shift != 0 {
            // Unaligned destination: each source byte is split over two
            // destination bytes by shift and mask.
            while l + 8 <= r
                invariant
                    m1 <= l as int <= r as int,
                    l % 8 == 0,
                    (x + l as int) % 8 == shift as int,
                    1 <= shift < 8,
                    r == right as int,
                    0 <= left <= m1,
                    right as int <= 8 * bitmap@.len(),
                    0 <= x + left,
                    x + right <= 8 * buf1.len(),
                    8 * buf1.len() <= i32::MAX as int,
                    buffer@.len() == buf1.len(),
                    row_blitted(buf1, buffer@, bitmap@, x as int, m1, l as int),
                decreases r - l,
            {
                let si = l / 8;
                proof {
                    lemma_pixel_in_bounds(l as int, bitmap@.len() as int);
                    lemma_byte_of_range(si as int, l as int);
                }
                let value = bitmap[si];
                let d = (x + l as i32) as usize;
                let di = d / 8;
                proof {
                    lemma_pixel_byte(d as int);
                    assert(d as int == 8 * (di as int) + shift);
                    assert(d + 8 <= 8 * buf1.len());
                    assert(8 * (di as int) <= 8 * buf1.len() - 9);
                    assert(di as int + 1 < buf1.len());
                }
                let ghost pre = buffer@;
                merge_high(buffer, di, value, shift);
                let ghost midb = buffer@;
                merge_low(buffer, di + 1, value, shift);
                proof {
                    assert forall|p: int| 0 <= p < 8 * buf1.len() implies row_pixel(buffer@, p)
                        == (if d as int <= p < d as int + 8 {
                        row_pixel(bitmap@, p - x)
                    } else {
                        row_pixel(pre, p)
                    }) by {
                        lemma_pixel_in_bounds(p, buf1.len() as int);
                        lemma_pixel_byte(p);
                        if d as int <= p < d as int + 8 {
                            lemma_byte_of_range(si as int, p - x);
                            if p < d as int + 8 - shift {
                                lemma_byte_of_range(di as int, p);
                                assert(row_pixel(buffer@, p) == bit_get(
                                    value,
                                    (p % 8 - shift) as u8,
                                ));
                            } else {
                                lemma_byte_of_range(di as int + 1, p);
                                assert(row_pixel(buffer@, p) == bit_get(
                                    value,
                                    (p % 8 + 8 - shift) as u8,
                                ));
                            }
                            assert(row_pixel(bitmap@, p - x) == bit_get(
                                bitmap@[si as int],
                                ((p - x) % 8) as u8,
                            ));
                        }
                    }
                    assert forall|p: int| 0 <= p < 8 * buf1.len() implies row_pixel(buffer@, p)
                        == (if x + m1 <= p < x + l as int + 8 {
                        row_pixel(bitmap@, p - x)
                    } else {
                        row_pixel(buf1, p)
                    }) by {
                        assert(row_pixel(pre, p) == (if x + m1 <= p < x + l as int {
                            row_pixel(bitmap@, p - x)
                        } else {
                            row_pixel(buf1, p)
                        }));
                    }
                }
                l += 8;
            }
        } else {
            // Byte-aligned destination: copy whole source bytes directly.
            while l + 8 <= r
                invariant
                    m1 <= l as int <= r as int,
                    l % 8 == 0,
                    (x + l as int) % 8 == 0,
                    r == right as int,
                    0 <= left <= m1,
                    right as int <= 8 * bitmap@.len(),
                    0 <= x + left,
                    x + right <= 8 * buf1.len(),
                    8 * buf1.len() <= i32::MAX as int,
                    buffer@.len() == buf1.len(),
                    row_blitted(buf1, buffer@, bitmap@, x as int, m1, l as int),
                decreases r - l,
            {
                let si = l / 8;
                proof {
                    lemma_pixel_in_bounds(l as int, bitmap@.len() as int);
                    lemma_byte_of_range(si as int, l as int);
                }
                let value = bitmap[si];
                let d = (x + l as i32) as usize;
                let di = d / 8;
                proof {
                    lemma_pixel_byte(d as int);
                    assert(d as int == 8 * (di as int));
                    assert(d + 8 <= 8 * buf1.len());
                    assert((di as int) < buf1.len());
                }
                let ghost pre = buffer@;
                buffer[di] = value;
                proof {
                    assert(buffer@ == pre.update(di as int, value));
                    assert forall|p: int| 0 <= p < 8 * buf1.len() implies row_pixel(buffer@, p)
                        == (if x + m1 <= p < x + l as int + 8 {
                        row_pixel(bitmap@, p - x)
                    } else {
                        row_pixel(buf1, p)
                    }) by {
                        lemma_pixel_in_bounds(p, buf1.len() as int);
                        lemma_pixel_byte(p);
                        if d as int <= p < d as int + 8 {
                            lemma_byte_of_range(si as int, p - x);
                            lemma_byte_of_range(di as int, p);
                            assert(row_pixel(buffer@, p) == bit_get(value, (p % 8) as u8));
                            assert(row_pixel(bitmap@, p - x) == bit_get(
                                bitmap@[si as int],
                                ((p - x) % 8) as u8,
                            ));
                        } else {
                            assert(p / 8 != di as int);
                            assert(row_pixel(buffer@, p) == row_pixel(pre, p));
                        }
                        assert(row_pixel(pre, p) == (if x + m1 <= p < x + l as int {
                            row_pixel(bitmap@, p - x)
                        } else {
                            row_pixel(buf1, p)
                        }));
                    }
                }
                l += 8;
            }
        }
        let ghost buf2 = buffer@;
        let ghost m2 = l as int;
        if l < r {
            // The span ends inside a source byte: finish bit by bit.
            self.render_bitmap_row_naive(buffer, x, bitmap, l as i32, right);
        }
        proof {
            lemma_blit_compose(buf0, buf1, buf2, bitmap@, x as int, left as int, m1, m2);
            lemma_blit_compose(buf0, buf2, buffer@, bitmap@, x as int, left as int, m2, r as int);
        }
    }
}

} // verus!
