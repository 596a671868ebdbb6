//! The two static monochrome image formats: a packed bitmap with per-row
//! stride, and a run-length-encoded image whose header indexes each row's
//! run list. Both render row by row through the renderer, never
//! materializing a decompressed copy, and both skip transparently where
//! they do not draw.

use crate::bits::row_pixel;
use crate::bits::spec_stride;
use crate::clip::Clip;
use crate::color::BlackWhite;
use crate::render::Renderer;
use crate::render::bitmap_row_rendered;
use crate::render::rle_row_rendered;
use crate::rle::rle_covers;
use crate::rle::rle_total;
use vstd::prelude::*;
use vstd::slice::slice_subrange;

verus! {

/// A packed one-bit-per-pixel bitmap. Rows are `stride` bytes apart;
/// `stride` may exceed the minimum packed width (row padding), never fall
/// short of it.
pub struct MonoBitmapImage {
    pub data: Vec<u8>,
    pub width: u16,
    pub height: u16,
    pub stride: u16,
}

/// A run-length-encoded monochrome image. The first `height + 1` words are
/// row offsets into the same array (word indices), such that row `r`'s run
/// list occupies `data[data[r] .. data[r + 1]]`; each run word holds a fill
/// flag and a fifteen-bit length, and each row's run lengths sum to
/// `width`.
pub struct MonoRLEImage {
    pub data: Vec<u16>,
    pub width: u16,
    pub height: u16,
}

/// What blitting a bitmap image anchored at `(x, y)` leaves behind: inside
/// the intersected clip `c`, every strip pixel that the image covers takes
/// the image's bit; everything else is untouched.
pub open spec fn bitmap_image_rendered(
    old_r: Renderer,
    new_r: Renderer,
    img: MonoBitmapImage,
    c: Clip,
    x: int,
    y: int,
) -> bool {
    &&& new_r.same_config(old_r)
    &&& new_r.buffer@.len() == old_r.buffer@.len()
    &&& forall|px: int, yy: int|
        old_r.in_strip(yy) && 0 <= px < 8 * old_r.stride() ==> #[trigger] new_r.strip_pixel(
            px,
            yy,
        ) == (if 0 <= yy - y < img.height as int && !c.spec_is_empty() && c.spec_contains_row(yy)
            && c.left <= px < c.right {
            img.img_pixel(yy - y, px - x)
        } else {
            old_r.strip_pixel(px, yy)
        })
}

/// What blitting a run-length image anchored at `(x, y)` leaves behind:
/// inside the intersected clip `c`, every strip pixel covered by a filling
/// run of its row takes the fill value; everything else — skipped runs
/// included — is untouched, which lets glyphs composite over existing
/// content.
pub open spec fn rle_image_rendered(
    old_r: Renderer,
    new_r: Renderer,
    img: MonoRLEImage,
    c: Clip,
    x: int,
    y: int,
    white: bool,
) -> bool {
    &&& new_r.same_config(old_r)
    &&& new_r.buffer@.len() == old_r.buffer@.len()
    &&& forall|px: int, yy: int|
        old_r.in_strip(yy) && 0 <= px < 8 * old_r.stride() ==> #[trigger] new_r.strip_pixel(
            px,
            yy,
        ) == (if 0 <= yy - y < img.height as int && c.spec_contains_row(yy) && c.left <= px
            < c.right && rle_covers(img.row_runs(yy - y), x, px) {
            white
        } else {
            old_r.strip_pixel(px, yy)
        })
}

impl MonoBitmapImage {
    /// Well-formed bitmap data: the stride covers the packed width and the
    /// byte array covers all rows.
    pub open spec fn wf(self) -> bool {
        &&& spec_stride(self.width as int) <= self.stride as int
        &&& self.stride as int * self.height as int <= self.data@.len()
    }

    /// The packed bytes of image row `r`.
    pub open spec fn row_seq(self, r: int) -> Seq<u8> {
        self.data@.subrange(
            self.stride as int * r,
            self.stride as int * r + self.stride as int,
        )
    }

    /// Pixel `(col, r)` of the image.
    pub open spec fn img_pixel(self, r: int, col: int) -> bool {
        row_pixel(self.row_seq(r), col)
    }

    pub fn width(&self) -> (r: u32)
        ensures
            r == self.width as u32,
    {
        self.width as u32
    }

    pub fn height(&self) -> (r: u32)
        ensures
            r == self.height as u32,
    {
        self.height as u32
    }

    /// Blit the image onto the renderer, anchored at `(x, y)`, bounded by
    /// `clip` and the active strip: each image row that meets the clip's
    /// vertical range is copied through the renderer's bitmap row blit.
    pub fn render_transparent(
        &self,
        renderer: &mut Renderer,
        clip: Clip,
        x: i32,
        y: i32,
        color: BlackWhite,
    )
        requires
            old(renderer).wf(),
            self.wf(),
            x as int + self.width as int <= i32::MAX as int,
            y as int + self.height as int <= i32::MAX as int,
        ensures
            final(renderer).wf(),
            bitmap_image_rendered(
                *old(renderer),
                *final(renderer),
                *self,
                old(renderer).bitmap_region(clip, x, (x as int + self.width as int) as i32),
                x as int,
                y as int,
            ),
    {
        let ghost r0 = *renderer;
        let ghost c = r0.bitmap_region(clip, x, (x as int + self.width as int) as i32);
        let stride = self.stride as usize;
        let dlen = self.data.len();
        let mut row: u16 = 0;
        while row < self.height
            invariant
                row <= self.height,
                renderer.wf(),
                renderer.same_config(r0),
                r0.wf(),
                renderer.buffer@.len() == r0.buffer@.len(),
                self.wf(),
                stride == self.stride as int,
                dlen as int == self.data@.len(),
                x as int + self.width as int <= i32::MAX as int,
                y as int + self.height as int <= i32::MAX as int,
                c == r0.bitmap_region(clip, x, (x as int + self.width as int) as i32),
                forall|px: int, yy: int|
                    r0.in_strip(yy) && 0 <= px < 8 * r0.stride() ==> #[trigger] renderer.strip_pixel(
                        px,
                        yy,
                    ) == (if 0 <= yy - y < row as int && !c.spec_is_empty()
                        && c.spec_contains_row(yy) && c.left <= px < c.right {
                        self.img_pixel(yy - y, px - x)
                    } else {
                        r0.strip_pixel(px, yy)
                    }),
            decreases self.height - row,
        {
            let yy0 = y + row as i32;
            let ghost prev = *renderer;
            if yy0 >= clip.top() && yy0 < clip.bottom() {
                proof {
                    assert(self.stride as int * (row as int) + self.stride as int <= self.stride
                        as int * (self.height as int)) by (nonlinear_arith)
                        requires
                            row as int + 1 <= self.height as int,
                            self.stride as int >= 0,
                    ;
                }
                let start = stride * (row as usize);
                let bits = slice_subrange(self.data.as_slice(), start, start + stride);
                renderer.render_bitmap_row(clip, yy0, x, x + self.width as i32, bits, color);
                proof {
                    assert(bits@ == self.row_seq(row as int));
                    assert(bitmap_row_rendered(
                        prev,
                        *renderer,
                        c,
                        yy0 as int,
                        bits@,
                        x as int,
                    ));
                }
            } else {
                proof {
                    assert(!c.spec_contains_row(yy0 as int));
                }
            }
            proof {
                assert forall|px: int, yy: int|
                    r0.in_strip(yy) && 0 <= px < 8 * r0.stride() implies #[trigger] renderer.strip_pixel(
                    px,
                    yy,
                ) == (if 0 <= yy - y < row as int + 1 && !c.spec_is_empty() && c.spec_contains_row(
                    yy,
                ) && c.left <= px < c.right {
                    self.img_pixel(yy - y, px - x)
                } else {
                    r0.strip_pixel(px, yy)
                }) by {
                    assert(prev.strip_pixel(px, yy) == (if 0 <= yy - y < row as int
                        && !c.spec_is_empty() && c.spec_contains_row(yy) && c.left <= px
                        < c.right {
                        self.img_pixel(yy - y, px - x)
                    } else {
                        r0.strip_pixel(px, yy)
                    }));
                }
            }
            row += 1;
        }
    }
}

impl MonoRLEImage {
    /// Well-formed run-length data: the header holds `height + 1` offsets
    /// starting right after itself, offsets never decrease and never pass
    /// the end of the array, and each row's run lengths sum to `width`.
    pub open spec fn wf(self) -> bool {
        &&& self.height as int + 1 <= self.data@.len()
        &&& self.data@[0] == self.height as int + 1
        &&& forall|r: int| 0 <= r < self.height as int ==> #[trigger] self.data@[r] <= self.data@[r + 1]
        &&& forall|r: int|
            0 <= r <= self.height as int ==> #[trigger] self.data@[r] as int <= self.data@.len()
        &&& forall|r: int|
            0 <= r < self.height as int ==> #[trigger] rle_total(self.row_runs(r)) == self.width as int
    }

    /// The run list of image row `r`.
    pub open spec fn row_runs(self, r: int) -> Seq<u16> {
        self.data@.subrange(self.data@[r] as int, self.data@[r + 1] as int)
    }

    pub fn width(&self) -> (r: u32)
        ensures
            r == self.width as u32,
    {
        self.width as u32
    }

    pub fn height(&self) -> (r: u32)
        ensures
            r == self.height as u32,
    {
        self.height as u32
    }

    /// Blit the image onto the renderer, anchored at `(x, y)`, bounded by
    /// `clip` and the active strip: each image row that meets the clip's
    /// vertical range streams its run list through the renderer's
    /// run-length row renderer.
    pub fn render_transparent(
        &self,
        renderer: &mut Renderer,
        clip: Clip,
        x: i32,
        y: i32,
        color: BlackWhite,
    )
        requires
            old(renderer).wf(),
            self.wf(),
            y as int + self.height as int <= i32::MAX as int,
        ensures
            final(renderer).wf(),
            rle_image_rendered(
                *old(renderer),
                *final(renderer),
                *self,
                old(renderer).row_region(clip),
                x as int,
                y as int,
                color.spec_is_white(),
            ),
    {
        let ghost r0 = *renderer;
        let ghost c = r0.row_region(clip);
        let mut row: u16 = 0;
        while row < self.height
            invariant
                row <= self.height,
                renderer.wf(),
                renderer.same_config(r0),
                r0.wf(),
                renderer.buffer@.len() == r0.buffer@.len(),
                self.wf(),
                y as int + self.height as int <= i32::MAX as int,
                c == r0.row_region(clip),
                forall|px: int, yy: int|
                    r0.in_strip(yy) && 0 <= px < 8 * r0.stride() ==> #[trigger] renderer.strip_pixel(
                        px,
                        yy,
                    ) == (if 0 <= yy - y < row as int && c.spec_contains_row(yy) && c.left <= px
                        < c.right && rle_covers(self.row_runs(yy - y), x as int, px) {
                        color.spec_is_white()
                    } else {
                        r0.strip_pixel(px, yy)
                    }),
            decreases self.height - row,
        {
            let yy0 = y + row as i32;
            let ghost prev = *renderer;
            if yy0 >= clip.top() && yy0 < clip.bottom() {
                let line_start = self.data[row as usize] as usize;
                let line_end = self.data[(row + 1) as usize] as usize;
                let line = slice_subrange(self.data.as_slice(), line_start, line_end);
                renderer.render_rle_row(clip, x, yy0, line, color);
                proof {
                    assert(line@ == self.row_runs(row as int));
                    assert(rle_row_rendered(
                        prev,
                        *renderer,
                        c,
                        x as int,
                        yy0 as int,
                        line@,
                        color.spec_is_white(),
                    ));
                }
            } else {
                proof {
                    assert(!c.spec_contains_row(yy0 as int));
                }
            }
            proof {
                assert forall|px: int, yy: int|
                    r0.in_strip(yy) && 0 <= px < 8 * r0.stride() implies #[trigger] renderer.strip_pixel(
                    px,
                    yy,
                ) == (if 0 <= yy - y < row as int + 1 && c.spec_contains_row(yy) && c.left <= px
                    < c.right && rle_covers(self.row_runs(yy - y), x as int, px) {
                    color.spec_is_white()
                } else {
                    r0.strip_pixel(px, yy)
                }) by {
                    assert(prev.strip_pixel(px, yy) == (if 0 <= yy - y < row as int
                        && c.spec_contains_row(yy) && c.left <= px < c.right && rle_covers(
                        self.row_runs(yy - y),
                        x as int,
                        px,
                    ) {
                        color.spec_is_white()
                    } else {
                        r0.strip_pixel(px, yy)
                    }));
                }
            }
            row += 1;
        }
    }
}

/// The closed set of monochrome image formats, behind one common
/// transparent-blit capability.
pub enum MonoImageData {
    Bitmap(MonoBitmapImage),
    Rle(MonoRLEImage),
}

/// What blitting an image of either format leaves behind.
pub open spec fn image_rendered(
    old_r: Renderer,
    new_r: Renderer,
    img: MonoImageData,
    clip: Clip,
    x: int,
    y: int,
    white: bool,
) -> bool {
    match img {
        MonoImageData::Bitmap(b) => bitmap_image_rendered(
            old_r,
            new_r,
            b,
            old_r.bitmap_region(clip, x as i32, (x + b.width as int) as i32),
            x,
            y,
        ),
        MonoImageData::Rle(r) => rle_image_rendered(
            old_r,
            new_r,
            r,
            old_r.row_region(clip),
            x,
            y,
            white,
        ),
    }
}

impl MonoImageData {
    /// Well-formed data for whichever format the image carries.
    pub open spec fn wf(self) -> bool {
        match self {
            MonoImageData::Bitmap(b) => b.wf(),
            MonoImageData::Rle(r) => r.wf(),
        }
    }

    /// The image width in pixels.
    pub open spec fn spec_width(self) -> int {
        match self {
            MonoImageData::Bitmap(b) => b.width as int,
            MonoImageData::Rle(r) => r.width as int,
        }
    }

    /// The image height in pixels.
    pub open spec fn spec_height(self) -> int {
        match self {
            MonoImageData::Bitmap(b) => b.height as int,
            MonoImageData::Rle(r) => r.height as int,
        }
    }

    pub fn width(&self) -> (r: u32)
        ensures
            r == self.spec_width(),
    {
        match self {
            MonoImageData::Bitmap(b) => b.width(),
            MonoImageData::Rle(r) => r.width(),
        }
    }

    pub fn height(&self) -> (r: u32)
        ensures
            r == self.spec_height(),
    {
        match self {
            MonoImageData::Bitmap(b) => b.height(),
            MonoImageData::Rle(r) => r.height(),
        }
    }

    /// Blit the image onto the renderer, anchored at `(x, y)`, bounded by
    /// `clip` and the active strip.
    pub fn render_transparent(
        &self,
        renderer: &mut Renderer,
        clip: Clip,
        x: i32,
        y: i32,
        color: BlackWhite,
    )
        requires
            old(renderer).wf(),
            self.wf(),
            x as int + self.spec_width() <= i32::MAX as int,
            y as int + self.spec_height() <= i32::MAX as int,
        ensures
            final(renderer).wf(),
            image_rendered(
                *old(renderer),
                *final(renderer),
                *self,
                clip,
                x as int,
                y as int,
                color.spec_is_white(),
            ),
    {
        match self {
            MonoImageData::Bitmap(b) => b.render_transparent(renderer, clip, x, y, color),
            MonoImageData::Rle(r) => r.render_transparent(renderer, clip, x, y, color),
        }
    }
}

/// The decode sum invariant: in a well-formed run-length image, the run
/// lengths of every row's run list sum to exactly the image width.
pub proof fn lemma_rle_row_sum(img: MonoRLEImage, r: int)
    requires
        img.wf(),
        0 <= r < img.height as int,
    ensures
        rle_total(img.row_runs(r)) == img.width as int,
{
}

/// A drawable image: an image of either format, anchored at `(x, y)`, with
/// the fill color its set runs or bits use.
pub struct MonoImage {
    pub image: MonoImageData,
    pub x: i32,
    pub y: i32,
    pub color: BlackWhite,
}

impl MonoImage {
    pub fn new(x: i32, y: i32, image: MonoImageData, color: BlackWhite) -> (r: MonoImage)
        ensures
            r.x == x,
            r.y == y,
            r.image == image,
            r.color == color,
    {
        MonoImage { image, x, y, color }
    }

    /// Blit the image at its anchor, bounded by `clip`.
    pub fn draw(&self, clip: Clip, renderer: &mut Renderer)
        requires
            old(renderer).wf(),
            self.image.wf(),
            self.x as int + self.image.spec_width() <= i32::MAX as int,
            self.y as int + self.image.spec_height() <= i32::MAX as int,
        ensures
            final(renderer).wf(),
            image_rendered(
                *old(renderer),
                *final(renderer),
                self.image,
                clip,
                self.x as int,
                self.y as int,
                self.color.spec_is_white(),
            ),
    {
        self.image.render_transparent(renderer, clip, self.x, self.y, self.color);
    }
}

} // verus!
