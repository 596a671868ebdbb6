//! The partial-frame renderer: a byte buffer bound to a horizontal strip
//! `[current_top, current_bottom)` of the logical canvas. Every drawing
//! primitive first intersects its clip with the strip, so a draw callback
//! may issue full-canvas coordinates and rely on the renderer to discard
//! everything outside the strip.

use crate::bits::lemma_stride_bounds;
use crate::bits::row_pixel;
use crate::bits::spec_stride;
use crate::clip::Clip;
use crate::color::BlackWhite;
use crate::color::row_blitted;
use crate::color::row_filled;
use crate::rle::lemma_rle_push;
use crate::rle::lemma_run_word;
use crate::rle::run_len;
use crate::rle::run_set;
use crate::rle::rle_covers;
use crate::rle::rle_total;
use vstd::prelude::*;

verus! {

/// A renderer for one strip of the canvas. The buffer holds
/// `stride * (current_bottom - current_top)` bytes; with `mirror_y` set,
/// canvas row `current_bottom - 1` maps to buffer row `0`, otherwise canvas
/// row `current_top` does.
pub struct Renderer {
    pub buffer: Vec<u8>,
    pub width: u32,
    pub height: u32,
    pub current_top: i32,
    pub current_bottom: i32,
    pub mirror_y: bool,
}

/// A pixel-row index range of one buffer row never meets that of another.
pub(crate) proof fn lemma_row_disjoint(s: int, i: int, j: int, x: int)
    requires
        0 <= s,
        0 <= x < 8 * s,
        i != j,
    ensures
        !(8 * s * j <= 8 * s * i + x < 8 * s * j + 8 * s),
{
    assert(!(8 * s * j <= 8 * s * i + x < 8 * s * j + 8 * s)) by (nonlinear_arith)
        requires
            0 <= s,
            0 <= x < 8 * s,
            i != j,
    ;
}

/// The byte row `i` of a buffer of `lines` rows spans bits
/// `[8 * s * i, 8 * s * i + 8 * s)`, inside the buffer.
pub(crate) proof fn lemma_row_span(s: int, i: int, lines: int, len: int)
    requires
        0 <= s,
        0 <= i < lines,
        len == s * lines,
    ensures
        0 <= 8 * s * i,
        8 * s * i + 8 * s <= 8 * len,
{
    assert(0 <= 8 * s * i && 8 * s * i + 8 * s <= 8 * len) by (nonlinear_arith)
        requires
            0 <= s,
            0 <= i < lines,
            len == s * lines,
    ;
}

/// A pixel of buffer row `i` lies inside the buffer.
proof fn lemma_row_in_buffer(s: int, i: int, lines: int, len: int, x: int)
    requires
        0 <= s,
        0 <= i < lines,
        0 <= x < 8 * s,
        len == s * lines,
    ensures
        0 <= 8 * s * i + x < 8 * len,
        8 * s * i + 8 * s <= 8 * len,
{
    assert(0 <= 8 * s * i + x < 8 * len && 8 * s * i + 8 * s <= 8 * len) by (nonlinear_arith)
        requires
            0 <= s,
            0 <= i < lines,
            0 <= x < 8 * s,
            len == s * lines,
    ;
}

/// What a rectangle fill leaves behind on a strip: inside the intersected
/// region `c` every pixel carries the fill value, everything else in the
/// strip (padding bits included) is untouched, and the renderer's geometry
/// is unchanged.
pub open spec fn filled(old_r: Renderer, new_r: Renderer, c: Clip, white: bool) -> bool {
    &&& new_r.same_config(old_r)
    &&& new_r.buffer@.len() == old_r.buffer@.len()
    &&& forall|x: int, y: int|
        old_r.in_strip(y) && 0 <= x < 8 * old_r.stride() ==> #[trigger] new_r.strip_pixel(x, y)
            == (if c.left <= x < c.right && c.top <= y < c.bottom {
            white
        } else {
            old_r.strip_pixel(x, y)
        })
}

/// What rendering one run-length row leaves behind: on canvas row `y`, if
/// it lies in the intersected clip `c`, every pixel inside `c`'s horizontal
/// range that a filling run covers carries the fill value; every other pixel
/// of the strip is untouched, and the renderer's geometry is unchanged.
pub open spec fn rle_row_rendered(
    old_r: Renderer,
    new_r: Renderer,
    c: Clip,
    x: int,
    y: int,
    runs: Seq<u16>,
    white: bool,
) -> bool {
    &&& new_r.same_config(old_r)
    &&& new_r.buffer@.len() == old_r.buffer@.len()
    &&& forall|px: int, yy: int|
        old_r.in_strip(yy) && 0 <= px < 8 * old_r.stride() ==> #[trigger] new_r.strip_pixel(
            px,
            yy,
        ) == (if yy == y && c.spec_contains_row(y) && c.left <= px < c.right && rle_covers(
            runs,
            x,
            px,
        ) {
            white
        } else {
            old_r.strip_pixel(px, yy)
        })
}

/// What one bitmap row copy leaves behind: on canvas row `y`, if the
/// intersected clip `c` is not empty and contains the row, every pixel in
/// `c`'s horizontal range carries source bit `px - left`; every other pixel
/// of the strip is untouched, and the renderer's geometry is unchanged.
pub open spec fn bitmap_row_rendered(
    old_r: Renderer,
    new_r: Renderer,
    c: Clip,
    y: int,
    src: Seq<u8>,
    left: int,
) -> bool {
    &&& new_r.same_config(old_r)
    &&& new_r.buffer@.len() == old_r.buffer@.len()
    &&& forall|px: int, yy: int|
        old_r.in_strip(yy) && 0 <= px < 8 * old_r.stride() ==> #[trigger] new_r.strip_pixel(
            px,
            yy,
        ) == (if yy == y && !c.spec_is_empty() && c.spec_contains_row(y) && c.left <= px
            < c.right {
            row_pixel(src, px - left)
        } else {
            old_r.strip_pixel(px, yy)
        })
}

impl Renderer {
    /// Bytes per packed buffer row.
    pub open spec fn stride(self) -> int {
        spec_stride(self.width as int)
    }

    /// Number of canvas rows the strip covers.
    pub open spec fn lines(self) -> int {
        self.current_bottom - self.current_top
    }

    /// The well-formedness of a renderer: an ordered strip, a buffer sized
    /// exactly for it, and dimensions small enough for 32-bit pixel
    /// arithmetic.
    pub open spec fn wf(self) -> bool {
        &&& self.current_top <= self.current_bottom
        &&& self.lines() <= i32::MAX as int
        &&& self.buffer@.len() == self.stride() * self.lines()
        &&& self.width <= i32::MAX as u32
        &&& self.height <= i32::MAX as u32
        &&& 8 * self.buffer@.len() <= i32::MAX as int
    }

    /// Geometry and configuration agree; only the buffer contents may
    /// differ.
    pub open spec fn same_config(self, other: Renderer) -> bool {
        &&& self.width == other.width
        &&& self.height == other.height
        &&& self.current_top == other.current_top
        &&& self.current_bottom == other.current_bottom
        &&& self.mirror_y == other.mirror_y
    }

    /// The buffer row that holds canvas row `y`.
    pub open spec fn row_index(self, y: int) -> int {
        if self.mirror_y {
            self.current_bottom - 1 - y
        } else {
            y - self.current_top
        }
    }

    /// The bit position in the buffer where canvas row `y` starts.
    pub open spec fn row_base(self, y: int) -> int {
        8 * self.stride() * self.row_index(y)
    }

    /// Pixel `x` of canvas row `y`, read from the strip's buffer.
    pub open spec fn strip_pixel(self, x: int, y: int) -> bool {
        row_pixel(self.buffer@, self.row_base(y) + x)
    }

    /// Whether canvas row `y` lies in the active strip.
    pub open spec fn in_strip(self, y: int) -> bool {
        self.current_top <= y < self.current_bottom
    }

    /// A clip spanning the whole canvas width and the active row strip.
    pub open spec fn spec_full_frame(self) -> Clip {
        Clip {
            left: 0,
            right: self.width as i32,
            top: self.current_top,
            bottom: self.current_bottom,
        }
    }

    /// The region a fill request reaches: the caller's clip, narrowed by
    /// the requested rectangle, the active strip and the canvas width.
    pub open spec fn fill_region(self, clip: Clip, left: i32, top: i32, right: i32, bottom: i32) -> Clip {
        clip.spec_clip(left, top, right, bottom).spec_clip_top(self.current_top).spec_clip_bottom(
            self.current_bottom,
        ).spec_clip_left(0).spec_clip_right(self.width as i32)
    }

    pub fn full_frame(&self) -> (r: Clip)
        ensures
            r == self.spec_full_frame(),
    {
        Clip { left: 0, right: self.width as i32, top: self.current_top, bottom: self.current_bottom }
    }

    pub fn current_top_row(&self) -> (r: i32)
        ensures
            r == self.current_top,
    {
        self.current_top
    }

    pub fn current_bottom_row(&self) -> (r: i32)
        ensures
            r == self.current_bottom,
    {
        self.current_bottom
    }

    /// The byte where the buffer row of canvas row `y` starts, as an exec
    /// value, with the facts later pixel arithmetic needs.
    fn row_base_bits(&self, y: i32) -> (base: usize)
        requires
            self.wf(),
            self.in_strip(y as int),
        ensures
            base as int == self.row_base(y as int),
            base + 8 * self.stride() <= 8 * self.buffer@.len(),
    {
        let stride = ((self.width as usize) + 7) / 8;
        let idx = if self.mirror_y {
            (self.current_bottom - 1 - y) as usize
        } else {
            (y - self.current_top) as usize
        };
        proof {
            lemma_row_span(self.stride(), idx as int, self.lines(), self.buffer@.len() as int);
        }
        8 * stride * idx
    }

    /// Fill the rectangle `(left, top, right, bottom)` with `color`, bounded
    /// by `clip`, the active strip and the canvas width. Everything outside
    /// that intersection is untouched; an empty intersection draws nothing.
    pub fn fill(&mut self, clip: Clip, left: i32, top: i32, right: i32, bottom: i32, color: BlackWhite)
        requires
            old(self).wf(),
        ensures
            final(self).wf(),
            filled(
                *old(self),
                *final(self),
                old(self).fill_region(clip, left, top, right, bottom),
                color.spec_is_white(),
            ),
    {
        let c = clip.clip(left, top, right, bottom).clip_top(self.current_top).clip_bottom(
            self.current_bottom,
        ).clip_left(0).clip_right(self.width as i32);
        proof {
            lemma_stride_bounds(self.width as int);
        }
        if c.is_empty() {
            return ;
        }
        if c.bottom() <= c.top() {
            return ;
        }
        let ghost r0 = *self;
        let mut y = c.top();
        while y < c.bottom()
            invariant
                self.wf(),
                self.same_config(r0),
                self.buffer@.len() == r0.buffer@.len(),
                r0.wf(),
                c == r0.fill_region(clip, left, top, right, bottom),
                0 <= c.left < c.right,
                c.right <= r0.width as i32,
                r0.width as int <= 8 * r0.stride(),
                r0.current_top <= c.top <= y <= c.bottom,
                c.bottom <= r0.current_bottom,
                forall|x: int, yy: int|
                    r0.in_strip(yy) && 0 <= x < 8 * r0.stride() ==> #[trigger] self.strip_pixel(
                        x,
                        yy,
                    ) == (if c.left <= x < c.right && c.top <= yy < y {
                        color.spec_is_white()
                    } else {
                        r0.strip_pixel(x, yy)
                    }),
            decreases c.bottom - y,
        {
            let base = self.row_base_bits(y);
            let base_i = base as i32;
            let ghost prev = *self;
            let cl = c.left();
            let cr = c.right();
            color.fill(&mut self.buffer, base_i + cl, base_i + cr);
            proof {
                let s = r0.stride();
                assert forall|x: int, yy: int|
                    r0.in_strip(yy) && 0 <= x < 8 * s implies #[trigger] self.strip_pixel(x, yy)
                    == (if c.left <= x < c.right && c.top <= yy < y + 1 {
                    color.spec_is_white()
                } else {
                    r0.strip_pixel(x, yy)
                }) by {
                    let pos = prev.row_base(yy) + x;
                    lemma_row_in_buffer(
                        s,
                        prev.row_index(yy),
                        prev.lines(),
                        prev.buffer@.len() as int,
                        x,
                    );
                    assert(0 <= pos < 8 * prev.buffer@.len());
                    assert(row_filled(
                        prev.buffer@,
                        self.buffer@,
                        base + c.left,
                        base + c.right,
                        color.spec_is_white(),
                    ));
                    assert(row_pixel(self.buffer@, pos) == (if base + c.left <= pos < base
                        + c.right {
                        color.spec_is_white()
                    } else {
                        row_pixel(prev.buffer@, pos)
                    }));
                    assert(prev.strip_pixel(x, yy) == row_pixel(prev.buffer@, pos));
                    assert(self.strip_pixel(x, yy) == row_pixel(self.buffer@, pos));
                    assert(prev.strip_pixel(x, yy) == (if c.left <= x < c.right && c.top <= yy
                        < y {
                        color.spec_is_white()
                    } else {
                        r0.strip_pixel(x, yy)
                    }));
                    if yy != y {
                        lemma_row_disjoint(s, prev.row_index(yy), prev.row_index(y as int), x);
                        assert(!(base + c.left <= pos < base + c.right));
                    } else {
                        assert(pos == base + x);
                    }
                }
            }
            y += 1;
        }
    }

    /// The clip a run-length row is bounded by: the caller's clip, narrowed
    /// by the active strip and the canvas width.
    pub open spec fn row_region(self, clip: Clip) -> Clip {
        clip.spec_clip_top(self.current_top).spec_clip_bottom(self.current_bottom).spec_clip_left(
            0,
        ).spec_clip_right(self.width as i32)
    }

    /// The clip a bitmap row copy is bounded by: the caller's clip, narrowed
    /// by the copy's own span, the active strip and the canvas width.
    pub open spec fn bitmap_region(self, clip: Clip, left: i32, right: i32) -> Clip {
        clip.spec_clip(left, self.current_top, right, self.current_bottom).spec_clip_left(
            0,
        ).spec_clip_right(self.width as i32)
    }

    /// Render one run-length row at horizontal position `x` on canvas row
    /// `y`: walk the run list left to right, filling the clipped span of
    /// every run whose flag is set and skipping transparently over the rest,
    /// so the background shows through skipped spans.
    pub fn render_rle_row(&mut self, clip: Clip, x: i32, y: i32, data: &[u16], color: BlackWhite)
        requires
            old(self).wf(),
            data@.len() <= 0xffff,
        ensures
            final(self).wf(),
            rle_row_rendered(
                *old(self),
                *final(self),
                old(self).row_region(clip),
                x as int,
                y as int,
                data@,
                color.spec_is_white(),
            ),
    {
        let c = clip.clip_top(self.current_top).clip_bottom(self.current_bottom).clip_left(
            0,
        ).clip_right(self.width as i32);
        if !c.contains_row(y) {
            return ;
        }
        proof {
            lemma_stride_bounds(self.width as int);
        }
        let base = self.row_base_bits(y);
        let base_i = base as i32;
        let ghost r0 = *self;
        let mut pos: i64 = x as i64;
        let mut i: usize = 0;
        let n = data.len();
        while i < n
            invariant
                i <= n,
                n == data@.len(),
                n <= 0xffff,
                pos == x as int + rle_total(data@.take(i as int)),
                x as int <= pos <= x as int + 0x7fff * (i as int),
                self.wf(),
                self.same_config(r0),
                r0.wf(),
                self.buffer@.len() == r0.buffer@.len(),
                c == r0.row_region(clip),
                0 <= c.left,
                c.right <= r0.width as i32,
                r0.width as int <= 8 * r0.stride(),
                r0.current_top <= c.top <= y < c.bottom,
                c.bottom <= r0.current_bottom,
                base as int == r0.row_base(y as int),
                base + 8 * r0.stride() <= 8 * r0.buffer@.len(),
                base_i as int == base as int,
                forall|px: int, yy: int|
                    r0.in_strip(yy) && 0 <= px < 8 * r0.stride() ==> #[trigger] self.strip_pixel(
                        px,
                        yy,
                    ) == (if yy == y as int && c.left <= px < c.right && rle_covers(
                        data@.take(i as int),
                        x as int,
                        px,
                    ) {
                        color.spec_is_white()
                    } else {
                        r0.strip_pixel(px, yy)
                    }),
            decreases n - i,
        {
            let run = data[i];
            let length = run & 0x7fff;
            proof {
                lemma_run_word(run);
                assert(data@.take(i as int + 1) =~= data@.take(i as int).push(data@[i as int]));
            }
            let ghost prev = *self;
            let ghost old_take = data@.take(i as int);
            let set_run = (run >> 15u16) != 0;
            if set_run {
                let mut rl: i64 = pos;
                if (c.left() as i64) > rl {
                    rl = c.left() as i64;
                }
                let mut rr: i64 = pos + length as i64;
                if (c.right() as i64) < rr {
                    rr = c.right() as i64;
                }
                if rl < rr {
                    color.fill(&mut self.buffer, base_i + (rl as i32), base_i + (rr as i32));
                }
            }
            proof {
                let s = r0.stride();
                let xi = x as int;
                let yi = y as int;
                assert forall|px: int, yy: int|
                    r0.in_strip(yy) && 0 <= px < 8 * s implies #[trigger] self.strip_pixel(px, yy)
                    == (if yy == yi && c.left <= px < c.right && rle_covers(
                    data@.take(i as int + 1),
                    xi,
                    px,
                ) {
                    color.spec_is_white()
                } else {
                    r0.strip_pixel(px, yy)
                }) by {
                    lemma_rle_push(old_take, data@[i as int], xi, px);
                    assert(rle_covers(data@.take(i as int + 1), xi, px) == (rle_covers(
                        old_take,
                        xi,
                        px,
                    ) || (run_set(data@[i as int]) && pos <= px < pos + run_len(
                        data@[i as int],
                    ))));
                    let posd = prev.row_base(yy) + px;
                    lemma_row_in_buffer(
                        s,
                        prev.row_index(yy),
                        prev.lines(),
                        prev.buffer@.len() as int,
                        px,
                    );
                    assert(prev.strip_pixel(px, yy) == row_pixel(prev.buffer@, posd));
                    assert(self.strip_pixel(px, yy) == row_pixel(self.buffer@, posd));
                    assert(prev.strip_pixel(px, yy) == (if yy == yi && c.left <= px < c.right
                        && rle_covers(old_take, xi, px) {
                        color.spec_is_white()
                    } else {
                        r0.strip_pixel(px, yy)
                    }));
                    if set_run {
                        let rl = if c.left as int > pos {
                            c.left as int
                        } else {
                            pos as int
                        };
                        let rr = if (c.right as int) < pos + run_len(data@[i as int]) {
                            c.right as int
                        } else {
                            pos + run_len(data@[i as int])
                        };
                        if rl < rr {
                            assert(row_filled(
                                prev.buffer@,
                                self.buffer@,
                                base + rl,
                                base + rr,
                                color.spec_is_white(),
                            ));
                            assert(row_pixel(self.buffer@, posd) == (if base + rl <= posd < base
                                + rr {
                                color.spec_is_white()
                            } else {
                                row_pixel(prev.buffer@, posd)
                            }));
                            if yy != yi {
                                lemma_row_disjoint(
                                    s,
                                    prev.row_index(yy),
                                    prev.row_index(yi),
                                    px,
                                );
                                assert(!(base + rl <= posd < base + rr));
                            } else {
                                assert(posd == base + px);
                            }
                        } else {
                            assert(self.buffer@ == prev.buffer@);
                        }
                    } else {
                        assert(self.buffer@ == prev.buffer@);
                    }
                }
            }
            pos = pos + length as i64;
            i += 1;
            proof {
                lemma_rle_push(old_take, data@[i as int - 1], x as int, 0);
            }
        }
        proof {
            assert(data@.take(n as int) =~= data@);
        }
    }

    /// Copy source bits `[c.left - left, c.right - left)` of a packed bitmap
    /// row onto canvas row `y`, where `c` is the caller's clip narrowed by
    /// the copy's span `[left, right)`, the active strip and the canvas
    /// width. Nothing is drawn when that clip is empty or does not contain
    /// the row.
    pub fn render_bitmap_row(
        &mut self,
        clip: Clip,
        y: i32,
        left: i32,
        right: i32,
        bits: &[u8],
        color: BlackWhite,
    )
        requires
            old(self).wf(),
            right as int - left as int <= 8 * bits@.len(),
            8 * bits@.len() <= i32::MAX as int,
        ensures
            final(self).wf(),
            bitmap_row_rendered(
                *old(self),
                *final(self),
                old(self).bitmap_region(clip, left, right),
                y as int,
                bits@,
                left as int,
            ),
    {
        let c = clip.clip(left, self.current_top, right, self.current_bottom).clip_left(
            0,
        ).clip_right(self.width as i32);
        if c.is_empty() {
            return ;
        }
        if !c.contains_row(y) {
            return ;
        }
        proof {
            lemma_stride_bounds(self.width as int);
        }
        let base = self.row_base_bits(y);
        let ghost r0 = *self;
        let srcl = c.left() - left;
        let srcr = c.right() - left;
        let dst = (base as i32) + left;
        color.render_bitmap_row(&mut self.buffer, dst, bits, srcl, srcr);
        proof {
            let s = r0.stride();
            let yi = y as int;
            assert(row_blitted(
                r0.buffer@,
                self.buffer@,
                bits@,
                base + left,
                c.left - left,
                c.right - left,
            ));
            assert forall|px: int, yy: int|
                r0.in_strip(yy) && 0 <= px < 8 * s implies #[trigger] self.strip_pixel(px, yy)
                == (if yy == yi && c.left <= px < c.right {
                row_pixel(bits@, px - left)
            } else {
                r0.strip_pixel(px, yy)
            }) by {
                let posd = r0.row_base(yy) + px;
                lemma_row_in_buffer(s, r0.row_index(yy), r0.lines(), r0.buffer@.len() as int, px);
                assert(r0.strip_pixel(px, yy) == row_pixel(r0.buffer@, posd));
                assert(self.strip_pixel(px, yy) == row_pixel(self.buffer@, posd));
                assert(row_pixel(self.buffer@, posd) == (if base + c.left <= posd < base
                    + c.right {
                    row_pixel(bits@, posd - (base + left))
                } else {
                    row_pixel(r0.buffer@, posd)
                }));
                if yy != yi {
                    lemma_row_disjoint(s, r0.row_index(yy), r0.row_index(yi), px);
                    assert(!(base + c.left <= posd < base + c.right));
                } else {
                    assert(posd == base + px);
                }
            }
        }
    }

    /// Fill the whole canvas width of the active strip with `color`.
    pub fn clear(&mut self, color: BlackWhite)
        requires
            old(self).wf(),
        ensures
            final(self).wf(),
            filled(
                *old(self),
                *final(self),
                old(self).fill_region(
                    old(self).spec_full_frame(),
                    0,
                    0,
                    old(self).width as i32,
                    old(self).height as i32,
                ),
                color.spec_is_white(),
            ),
    {
        let ff = self.full_frame();
        let w = self.width as i32;
        let h = self.height as i32;
        self.fill(ff, 0, 0, w, h, color);
    }
}

} // verus!
