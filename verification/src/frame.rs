//! Chunked frame orchestration: a `Frame` drives a draw callback over
//! successive partial buffers, each covering a strip of rows, and applies
//! x-mirroring as a buffer-wide post-process after each strip is rendered.
//! Rendering the same canvas in any chunking produces the same rows, which
//! is what makes the partial-frame design sound; the lemmas at the end of
//! this module state that law.

use crate::bits::lemma_stride_bounds;
use crate::bits::row_pixel;
use crate::bits::spec_stride;
use crate::clip::Clip;
use crate::color::BlackWhite;
use crate::color::mirror_row_at;
use crate::color::row_mirrored_at;
use crate::render::Renderer;
use crate::render::filled;
use vstd::arithmetic::div_mod::lemma_fundamental_div_mod;
use vstd::prelude::*;

verus! {

/// A frame: canvas dimensions, the draw callback invoked once per chunk,
/// and the two independent mirroring flags.
pub struct Frame<Draw> {
    pub width: u32,
    pub height: u32,
    pub draw: Draw,
    pub mirror_x: bool,
    pub mirror_y: bool,
}

/// `8 * s * (j + 1)` is one row span past `8 * s * j`.
proof fn lemma_mul_step(s: int, j: int)
    by (nonlinear_arith)
    ensures
        8 * s * (j + 1) == 8 * s * j + 8 * s,
        8 * (s * j) == 8 * s * j,
        8 * (j * s) == 8 * s * j,
        j * s == s * j,
        s * (j + 1) == s * j + s,
{
}

/// Every buffer row of `b` is the bit-reversed image of the same row of
/// `a`: within each of the `lines` rows of `stride` bytes, pixel `i` of `b`
/// holds pixel `width - 1 - i` of `a`, and the padding bits of `b` are
/// clear.
pub open spec fn rows_mirrored(a: Seq<u8>, b: Seq<u8>, stride: int, lines: int, width: int) -> bool {
    &&& b.len() == a.len()
    &&& forall|j: int, i: int|
        0 <= j < lines && 0 <= i < width ==> #[trigger] row_pixel(b, 8 * stride * j + i)
            == row_pixel(a, 8 * stride * j + (width - 1 - i))
    &&& forall|j: int, i: int|
        0 <= j < lines && width <= i < 8 * stride ==> !#[trigger] row_pixel(b, 8 * stride * j + i)
}

impl<Draw: Fn(Renderer) -> Renderer> Frame<Draw> {
    /// Dimensions that 32-bit pixel arithmetic can address.
    pub open spec fn wf(self) -> bool {
        &&& 1 <= self.width <= i32::MAX as u32
        &&& self.height <= i32::MAX as u32
    }

    /// Bytes per packed buffer row.
    pub open spec fn stride(self) -> int {
        spec_stride(self.width as int)
    }

    /// Rows a buffer of `blen` bytes covers.
    pub open spec fn chunk_lines(self, blen: int) -> int {
        blen / self.stride()
    }

    /// The first canvas row of the chunk at `y` with `lines` rows: with
    /// y-mirroring the chunk is read from the opposite end of the canvas.
    pub open spec fn chunk_top(self, y: int, lines: int) -> int {
        if self.mirror_y {
            self.height - (y + lines)
        } else {
            y
        }
    }

    /// One past the last canvas row of the chunk at `y` with `lines` rows.
    pub open spec fn chunk_bottom(self, y: int, lines: int) -> int {
        if self.mirror_y {
            self.height - y
        } else {
            y + lines
        }
    }

    /// The geometry of the renderer that `draw_part` hands to the draw
    /// callback for the chunk at `y` with `lines` rows.
    pub open spec fn chunk_renderer(self, y: int, lines: int, r: Renderer) -> bool {
        &&& r.width == self.width
        &&& r.height == self.height
        &&& r.mirror_y == self.mirror_y
        &&& r.current_top == self.chunk_top(y, lines)
        &&& r.current_bottom == self.chunk_bottom(y, lines)
    }

    /// How the final buffer relates to what the callback rendered: copied
    /// through unchanged, or with every row bit-reversed when x-mirroring
    /// is on.
    pub open spec fn mirror_post(self, rendered: Seq<u8>, out: Seq<u8>, lines: int) -> bool {
        if self.mirror_x {
            rows_mirrored(rendered, out, self.stride(), lines, self.width as int)
        } else {
            out == rendered
        }
    }

    pub fn new(width: u32, height: u32, draw: Draw) -> (r: Frame<Draw>)
        ensures
            r.width == width,
            r.height == height,
            r.draw == draw,
            !r.mirror_x,
            !r.mirror_y,
    {
        Frame { width, height, draw, mirror_x: false, mirror_y: false }
    }

    /// Switch the x-mirroring post-process on or off.
    pub fn mirror_x(&mut self, mirror_x: bool)
        ensures
            final(self).mirror_x == mirror_x,
            final(self).mirror_y == old(self).mirror_y,
            final(self).width == old(self).width,
            final(self).height == old(self).height,
            final(self).draw == old(self).draw,
    {
        self.mirror_x = mirror_x;
    }

    /// Switch the y-mirrored row addressing on or off.
    pub fn mirror_y(&mut self, mirror_y: bool)
        ensures
            final(self).mirror_y == mirror_y,
            final(self).mirror_x == old(self).mirror_x,
            final(self).width == old(self).width,
            final(self).height == old(self).height,
            final(self).draw == old(self).draw,
    {
        self.mirror_y = mirror_y;
    }

    pub fn width(&self) -> (r: u32)
        ensures
            r == self.width,
    {
        self.width
    }

    pub fn height(&self) -> (r: u32)
        ensures
            r == self.height,
    {
        self.height
    }

    /// Render the chunk that starts at row `y` into `buffer`, whose length
    /// decides the number of rows. A renderer scoped to the chunk's row
    /// range is handed to the draw callback; after it returns, with
    /// x-mirroring on, every buffer row is bit-reversed in place.
    pub fn draw_part(&self, y: u32, buffer: &mut Vec<u8>)
        requires
            self.wf(),
            old(buffer)@.len() as int % spec_stride(self.width as int) == 0,
            8 * old(buffer)@.len() <= i32::MAX as int,
            y as int + self.chunk_lines(old(buffer)@.len() as int) <= i32::MAX as int,
            forall|r: Renderer|
                r.wf() && self.chunk_renderer(
                    y as int,
                    self.chunk_lines(old(buffer)@.len() as int),
                    r,
                ) && r.buffer@ == old(buffer)@ ==> #[trigger] call_requires(self.draw, (r,)),
            forall|r: Renderer, r2: Renderer|
                self.chunk_renderer(y as int, self.chunk_lines(old(buffer)@.len() as int), r)
                    && #[trigger] call_ensures(self.draw, (r,), r2) ==> r2.same_config(r)
                    && r2.buffer@.len() == r.buffer@.len(),
        ensures
            final(buffer)@.len() == old(buffer)@.len(),
            exists|r1: Renderer, r2: Renderer|
                {
                    &&& r1.wf()
                    &&& self.chunk_renderer(
                        y as int,
                        self.chunk_lines(old(buffer)@.len() as int),
                        r1,
                    )
                    &&& r1.buffer@ == old(buffer)@
                    &&& #[trigger] call_ensures(self.draw, (r1,), r2)
                    &&& self.mirror_post(
                        r2.buffer@,
                        final(buffer)@,
                        self.chunk_lines(old(buffer)@.len() as int),
                    )
                },
    {
        let stride = ((self.width as usize) + 7) / 8;
        let lines = buffer.len() / stride;
        let ghost lns = lines as int;
        let ghost blen = buffer@.len() as int;
        proof {
            lemma_stride_bounds(self.width as int);
            lemma_fundamental_div_mod(blen, self.stride());
            assert(blen == self.stride() * lns);
        }
        let top: i32;
        let bottom: i32;
        if self.mirror_y {
            top = self.height as i32 - (y as i32 + lines as i32);
            bottom = self.height as i32 - y as i32;
        } else {
            top = y as i32;
            bottom = y as i32 + lines as i32;
        }
        let mut buf: Vec<u8> = Vec::new();
        core::mem::swap(&mut buf, buffer);
        let r1 = Renderer {
            buffer: buf,
            width: self.width,
            height: self.height,
            current_top: top,
            current_bottom: bottom,
            mirror_y: self.mirror_y,
        };
        let ghost gr1 = r1;
        proof {
            assert(r1.lines() == lns);
            assert(r1.wf());
            assert(self.chunk_renderer(y as int, lns, r1));
        }
        let r2 = (self.draw)(r1);
        let ghost gr2 = r2;
        let Renderer { buffer: out, .. } = r2;
        *buffer = out;
        if self.mirror_x {
            let w = self.width as usize;
            let ghost s = self.stride();
            let mut j: usize = 0;
            while j < lines
                invariant
                    j <= lines,
                    lns == lines as int,
                    s == self.stride(),
                    s == stride as int,
                    1 <= s,
                    w == self.width as u32 as usize,
                    w as int <= 8 * s,
                    w + 7 <= usize::MAX,
                    buffer@.len() == gr2.buffer@.len(),
                    buffer@.len() == s * lns,
                    forall|jj: int, i: int|
                        0 <= jj < j && 0 <= i < w ==> #[trigger] row_pixel(buffer@, 8 * s * jj + i)
                            == row_pixel(gr2.buffer@, 8 * s * jj + (w - 1 - i)),
                    forall|jj: int, i: int|
                        0 <= jj < j && w <= i < 8 * s ==> !#[trigger] row_pixel(
                            buffer@,
                            8 * s * jj + i,
                        ),
                    buffer@.len() <= usize::MAX as int,
                    forall|p: int|
                        8 * s * (j as int) <= p < 8 * buffer@.len() ==> #[trigger] row_pixel(
                            buffer@,
                            p,
                        ) == row_pixel(gr2.buffer@, p),
                decreases lines - j,
            {
                proof {
                    lemma_mul_step(s, j as int);
                    crate::render::lemma_row_span(s, j as int, lns, buffer@.len() as int);
                }
                let ghost prevb = buffer@;
                mirror_row_at(buffer, j * stride, w);
                proof {
                    let base = 8 * s * (j as int);
                    assert(8 * ((j * stride) as int) == base);
                    assert(row_mirrored_at(prevb, buffer@, base, w as int));
                    assert(spec_stride(w as int) == s);
                    assert forall|jj: int, i: int|
                        0 <= jj < j as int + 1 && 0 <= i < w implies #[trigger] row_pixel(
                        buffer@,
                        8 * s * jj + i,
                    ) == row_pixel(gr2.buffer@, 8 * s * jj + (w - 1 - i)) by {
                        crate::render::lemma_row_span(s, jj, lns, buffer@.len() as int);
                        if jj == j as int {
                            assert(row_pixel(buffer@, base + i) == row_pixel(
                                prevb,
                                base + (w - 1 - i),
                            ));
                            assert(row_pixel(prevb, base + (w - 1 - i)) == row_pixel(
                                gr2.buffer@,
                                base + (w - 1 - i),
                            ));
                        } else {
                            crate::render::lemma_row_disjoint(s, jj, j as int, i);
                            assert(!(base <= 8 * s * jj + i < base + 8 * s));
                            assert(row_pixel(buffer@, 8 * s * jj + i) == row_pixel(
                                prevb,
                                8 * s * jj + i,
                            ));
                            assert(row_pixel(prevb, 8 * s * jj + i) == row_pixel(
                                gr2.buffer@,
                                8 * s * jj + (w - 1 - i),
                            ));
                        }
                    }
                    assert forall|jj: int, i: int|
                        0 <= jj < j as int + 1 && w <= i < 8 * s implies !#[trigger] row_pixel(
                        buffer@,
                        8 * s * jj + i,
                    ) by {
                        crate::render::lemma_row_span(s, jj, lns, buffer@.len() as int);
                        if jj == j as int {
                            assert(!row_pixel(buffer@, base + i));
                        } else {
                            crate::render::lemma_row_disjoint(s, jj, j as int, i);
                            assert(!(base <= 8 * s * jj + i < base + 8 * s));
                            assert(row_pixel(buffer@, 8 * s * jj + i) == row_pixel(
                                prevb,
                                8 * s * jj + i,
                            ));
                        }
                    }
                    assert forall|p: int|
                        8 * s * (j as int + 1) <= p < 8 * buffer@.len() implies #[trigger] row_pixel(
                        buffer@,
                        p,
                    ) == row_pixel(gr2.buffer@, p) by {
                        assert(!(base <= p < base + 8 * s));
                        assert(row_pixel(buffer@, p) == row_pixel(prevb, p));
                    }
                }
                j += 1;
            }
            proof {
                assert(rows_mirrored(gr2.buffer@, buffer@, s, lns, self.width as int));
            }
        }
        proof {
            assert(self.mirror_post(gr2.buffer@, buffer@, lns));
            assert(gr1.wf() && self.chunk_renderer(y as int, self.chunk_lines(blen), gr1)
                && gr1.buffer@ == old(buffer)@ && call_ensures(self.draw, (gr1,), gr2)
                && self.mirror_post(gr2.buffer@, buffer@, self.chunk_lines(blen)));
        }
    }
}

/// A drawable solid rectangle, positioned by its left and top edge and
/// sized by width and height.
pub struct Rectangle {
    pub left: i32,
    pub top: i32,
    pub width: i32,
    pub height: i32,
    pub color: BlackWhite,
}

impl Rectangle {
    pub fn new(left: i32, top: i32, width: i32, height: i32, color: BlackWhite) -> (r: Rectangle)
        ensures
            r.left == left,
            r.top == top,
            r.width == width,
            r.height == height,
            r.color == color,
    {
        Rectangle { left, top, width, height, color }
    }

    /// Fill the rectangle's extent on the renderer, bounded by `clip`.
    pub fn draw(&self, clip: Clip, renderer: &mut Renderer)
        requires
            old(renderer).wf(),
            i32::MIN as int <= self.left + self.width <= i32::MAX as int,
            i32::MIN as int <= self.top + self.height <= i32::MAX as int,
        ensures
            final(renderer).wf(),
            filled(
                *old(renderer),
                *final(renderer),
                old(renderer).fill_region(
                    clip,
                    self.left,
                    self.top,
                    (self.left + self.width) as i32,
                    (self.top + self.height) as i32,
                ),
                self.color.spec_is_white(),
            ),
    {
        renderer.fill(
            clip,
            self.left,
            self.top,
            self.left + self.width,
            self.top + self.height,
            self.color,
        );
    }
}

/// How a text anchor is interpreted: at the left edge, at the right edge,
/// or at the middle of the rendered text.
#[derive(Copy, Clone, PartialEq, Eq, Structural, Debug)]
pub enum TextAlignment {
    Left,
    Right,
    Center,
}

/// The per-chunk row content of a canvas, as an abstract function from
/// canvas row to packed row bytes: the rows that `draw_part` emits for the
/// chunk at `y` with `lines` rows, in buffer order. With y-mirroring the
/// chunk holds rows from the opposite end of the canvas, top row last.
pub open spec fn chunk_canvas_rows(
    canvas: spec_fn(int) -> Seq<u8>,
    height: int,
    mirror_y: bool,
    y: int,
    lines: nat,
) -> Seq<Seq<u8>> {
    Seq::new(
        lines,
        |j: int|
            canvas(
                if mirror_y {
                    height - y - 1 - j
                } else {
                    y + j
                },
            ),
    )
}

/// The sum of a list of chunk heights.
pub open spec fn sum_lens(lens: Seq<nat>) -> int
    decreases lens.len(),
{
    if lens.len() == 0 {
        0
    } else {
        lens[0] + sum_lens(lens.drop_first())
    }
}

/// The rows emitted by a sequence of consecutive chunks: each chunk starts
/// where the previous one ended.
pub open spec fn chunks_canvas_rows(
    canvas: spec_fn(int) -> Seq<u8>,
    height: int,
    mirror_y: bool,
    y: int,
    lens: Seq<nat>,
) -> Seq<Seq<u8>>
    decreases lens.len(),
{
    if lens.len() == 0 {
        Seq::empty()
    } else {
        chunk_canvas_rows(canvas, height, mirror_y, y, lens[0]) + chunks_canvas_rows(
            canvas,
            height,
            mirror_y,
            y + lens[0],
            lens.drop_first(),
        )
    }
}

/// A chunk sum is never negative.
pub proof fn lemma_sum_lens_nonneg(lens: Seq<nat>)
    ensures
        sum_lens(lens) >= 0,
    decreases lens.len(),
{
    if lens.len() > 0 {
        lemma_sum_lens_nonneg(lens.drop_first());
    }
}

/// Splitting one chunk in two changes nothing: the rows of the chunk at
/// `y` with `n1 + n2` lines are exactly the rows of the chunk at `y` with
/// `n1` lines followed by those of the chunk at `y + n1` with `n2` lines,
/// with or without y-mirroring.
pub proof fn lemma_chunk_split(
    canvas: spec_fn(int) -> Seq<u8>,
    height: int,
    mirror_y: bool,
    y: int,
    n1: nat,
    n2: nat,
)
    ensures
        chunk_canvas_rows(canvas, height, mirror_y, y, (n1 + n2) as nat) == chunk_canvas_rows(
            canvas,
            height,
            mirror_y,
            y,
            n1,
        ) + chunk_canvas_rows(canvas, height, mirror_y, y + n1, n2),
{
    let whole = chunk_canvas_rows(canvas, height, mirror_y, y, (n1 + n2) as nat);
    let split = chunk_canvas_rows(canvas, height, mirror_y, y, n1) + chunk_canvas_rows(
        canvas,
        height,
        mirror_y,
        y + n1,
        n2,
    );
    assert forall|j: int| 0 <= j < n1 + n2 implies whole[j] == split[j] by {}
    assert(whole =~= split);
}

/// Partial-frame equivalence: rendering a canvas in any sequence of
/// consecutive chunks that together cover `sum_lens(lens)` rows produces
/// exactly the rows of rendering it in one chunk of that height, with or
/// without y-mirroring. The canvas is the abstract per-row output of the
/// draw callback, which must not depend on the chunking; `draw_part`'s
/// contract delivers each chunk's rows in exactly this form.
pub proof fn lemma_partial_frame_equivalence(
    canvas: spec_fn(int) -> Seq<u8>,
    height: int,
    mirror_y: bool,
    y: int,
    lens: Seq<nat>,
)
    ensures
        chunks_canvas_rows(canvas, height, mirror_y, y, lens) == chunk_canvas_rows(
            canvas,
            height,
            mirror_y,
            y,
            sum_lens(lens) as nat,
        ),
    decreases lens.len(),
{
    lemma_sum_lens_nonneg(lens);
    if lens.len() == 0 {
        assert(chunk_canvas_rows(canvas, height, mirror_y, y, 0) =~= Seq::<Seq<u8>>::empty());
    } else {
        lemma_sum_lens_nonneg(lens.drop_first());
        lemma_partial_frame_equivalence(canvas, height, mirror_y, y + lens[0], lens.drop_first());
        lemma_chunk_split(
            canvas,
            height,
            mirror_y,
            y,
            lens[0],
            sum_lens(lens.drop_first()) as nat,
        );
    }
}

} // verus!
