//! Compiled fonts and text layout: a static glyph table, a pure
//! character-to-glyph-index lookup over sorted code point ranges, text
//! measurement, and left-to-right glyph rendering. Characters without a
//! compiled glyph are silently skipped: they draw nothing and measure
//! nothing.

use crate::clip::Clip;
use crate::color::BlackWhite;
use crate::frame::TextAlignment;
use crate::image::MonoImageData;
use crate::image::image_rendered;
use crate::render::Renderer;
use vstd::prelude::*;
use vstd::string::StrSliceExecFns;

verus! {

/// One run of consecutive code points mapped to consecutive glyph indices:
/// character `c` with `start <= c < start + length` maps to glyph
/// `base_index + (c - start)`. A singleton character is a run of length
/// one.
pub struct GlyphRange {
    pub start: u32,
    pub length: u32,
    pub base_index: usize,
}

/// One glyph: its image, the signed offsets that position the image
/// relative to the pen, and the horizontal advance the glyph consumes.
pub struct Glyph {
    pub image: MonoImageData,
    pub image_left: i16,
    pub image_top: i16,
    pub advance: u32,
}

/// A compiled font: vertical metrics in pixels, the glyph table, and the
/// sorted ranges that drive the character lookup.
pub struct Font {
    pub ascender: u16,
    pub descender: u16,
    pub glyphs: Vec<Glyph>,
    pub ranges: Vec<GlyphRange>,
}

/// The glyph index a character maps to: the first range that contains its
/// code point decides, and a character outside every range maps to nothing.
pub open spec fn spec_glyph_index(ranges: Seq<GlyphRange>, c: char) -> Option<int>
    decreases ranges.len(),
{
    if ranges.len() == 0 {
        Option::None
    } else if ranges[0].start <= (c as u32) < ranges[0].start + ranges[0].length {
        Option::Some(ranges[0].base_index + ((c as u32) - ranges[0].start))
    } else {
        spec_glyph_index(ranges.drop_first(), c)
    }
}

/// A lookup hit lies inside the glyph table whenever every range does.
pub proof fn lemma_glyph_index_in_bounds(ranges: Seq<GlyphRange>, glyphs_len: int, c: char)
    requires
        forall|i: int|
            0 <= i < ranges.len() ==> (#[trigger] ranges[i]).base_index + ranges[i].length
                <= glyphs_len,
    ensures
        spec_glyph_index(ranges, c) matches Option::Some(k) ==> 0 <= k < glyphs_len,
    decreases ranges.len(),
{
    if ranges.len() > 0 {
        assert(ranges[0] == ranges.drop_first().push(ranges[0]).last());
        assert forall|i: int|
            0 <= i < ranges.drop_first().len() implies (#[trigger] ranges.drop_first()[i]).base_index
            + ranges.drop_first()[i].length <= glyphs_len by {
            assert(ranges.drop_first()[i] == ranges[i + 1]);
        }
        lemma_glyph_index_in_bounds(ranges.drop_first(), glyphs_len, c);
    }
}

/// What rendering one glyph at pen position `(pos, y)` leaves behind: its
/// image blitted at `(pos + image_left, y + ascender - image_top)`.
pub open spec fn glyph_rendered(
    r0: Renderer,
    r1: Renderer,
    font: Font,
    g: Glyph,
    clip: Clip,
    pos: int,
    y: int,
    white: bool,
) -> bool {
    image_rendered(
        r0,
        r1,
        g.image,
        clip,
        pos + g.image_left as int,
        y + font.ascender as int - g.image_top as int,
        white,
    )
}

/// What rendering a character sequence leaves behind: the glyphs of the
/// mapped characters blitted left to right, the pen advancing by each
/// mapped glyph's advance; unmapped characters draw nothing and advance
/// nothing.
pub open spec fn text_rendered(
    r0: Renderer,
    r1: Renderer,
    font: Font,
    chars: Seq<char>,
    clip: Clip,
    pos: int,
    y: int,
    white: bool,
) -> bool
    decreases chars.len(),
{
    if chars.len() == 0 {
        r1 == r0
    } else {
        match spec_glyph_index(font.ranges@, chars[0]) {
            Option::None => text_rendered(r0, r1, font, chars.drop_first(), clip, pos, y, white),
            Option::Some(k) => exists|rm: Renderer|
                #[trigger] glyph_rendered(r0, rm, font, font.glyphs@[k], clip, pos, y, white)
                    && text_rendered(
                    rm,
                    r1,
                    font,
                    chars.drop_first(),
                    clip,
                    pos + font.glyphs@[k].advance,
                    y,
                    white,
                ),
        }
    }
}

impl Font {
    /// Well-formed font data: every range maps into the glyph table and
    /// every glyph's image is well formed.
    pub open spec fn wf(self) -> bool {
        &&& forall|i: int|
            0 <= i < self.ranges@.len() ==> (#[trigger] self.ranges@[i]).base_index
                + self.ranges@[i].length <= self.glyphs@.len()
        &&& forall|i: int| 0 <= i < self.glyphs@.len() ==> (#[trigger] self.glyphs@[i]).image.wf()
    }

    /// The advance a single character contributes: its glyph's advance, or
    /// nothing when the character has no glyph.
    pub open spec fn spec_char_advance(self, c: char) -> int {
        match spec_glyph_index(self.ranges@, c) {
            Option::Some(k) => self.glyphs@[k].advance as int,
            Option::None => 0,
        }
    }

    /// The width of a character sequence: the sum of the advances of its
    /// mapped characters.
    pub open spec fn spec_text_width(self, s: Seq<char>) -> int
        decreases s.len(),
    {
        if s.len() == 0 {
            0
        } else {
            self.spec_text_width(s.drop_last()) + self.spec_char_advance(s.last())
        }
    }

    /// Text width decomposes at the front: the width of a non-empty
    /// sequence is its first character's advance plus the width of the
    /// rest. With the definition, which sums from the back, this states
    /// that the width is the plain sum of per-character advances in any
    /// association.
    pub proof fn lemma_text_width_front(self, s: Seq<char>)
        requires
            s.len() > 0,
        ensures
            self.spec_text_width(s) == self.spec_char_advance(s[0]) + self.spec_text_width(
                s.drop_first(),
            ),
        decreases s.len(),
    {
        if s.len() == 1 {
            assert(s.drop_last() =~= Seq::<char>::empty());
            assert(s.drop_first() =~= Seq::<char>::empty());
        } else {
            self.lemma_text_width_front(s.drop_last());
            assert(s.drop_last().drop_first() =~= s.drop_first().drop_last());
            assert(s.drop_last()[0] == s[0]);
            assert(s.drop_first().last() == s.last());
        }
    }

    /// Taking one more character adds exactly that character's advance.
    pub proof fn lemma_text_width_take_step(self, s: Seq<char>, i: int)
        requires
            0 <= i < s.len(),
        ensures
            self.spec_text_width(s.take(i + 1)) == self.spec_text_width(s.take(i))
                + self.spec_char_advance(s[i]),
    {
        assert(s.take(i + 1).drop_last() =~= s.take(i));
        assert(s.take(i + 1).last() == s[i]);
    }

    /// A prefix never measures wider than the whole sequence.
    pub proof fn lemma_text_width_prefix(self, s: Seq<char>, i: int)
        requires
            0 <= i <= s.len(),
        ensures
            0 <= self.spec_text_width(s.take(i)) <= self.spec_text_width(s),
        decreases s.len() - i,
    {
        if i == s.len() {
            assert(s.take(i) =~= s);
            self.lemma_text_width_nonneg(s);
        } else {
            self.lemma_text_width_take_step(s, i);
            self.lemma_text_width_prefix(s, i + 1);
            self.lemma_text_width_nonneg(s.take(i));
        }
    }

    /// A width is never negative.
    pub proof fn lemma_text_width_nonneg(self, s: Seq<char>)
        ensures
            self.spec_text_width(s) >= 0,
        decreases s.len(),
    {
        if s.len() > 0 {
            self.lemma_text_width_nonneg(s.drop_last());
        }
    }

    /// Look a character up in the compiled ranges: the first matching range
    /// decides, characters outside every range map to nothing.
    pub fn get_glyph_index(&self, c: char) -> (r: Option<usize>)
        requires
            self.wf(),
        ensures
            match spec_glyph_index(self.ranges@, c) {
                Option::Some(k) => r matches Option::Some(ku) && ku as int == k && 0 <= k
                    < self.glyphs@.len(),
                Option::None => r is None,
            },
    {
        proof {
            lemma_glyph_index_in_bounds(self.ranges@, self.glyphs@.len() as int, c);
        }
        let cu = c as u32;
        let n = self.ranges.len();
        let glen = self.glyphs.len();
        proof {
            assert(self.ranges@.skip(0) =~= self.ranges@);
        }
        let mut i: usize = 0;
        while i < n
            invariant
                i <= n,
                n == self.ranges@.len(),
                glen as int == self.glyphs@.len(),
                self.wf(),
                cu == c as u32,
                spec_glyph_index(self.ranges@, c) == spec_glyph_index(self.ranges@.skip(i as int), c),
            decreases n - i,
        {
            let ghost pre = self.ranges@.skip(i as int);
            let start = self.ranges[i].start;
            let length = self.ranges[i].length;
            proof {
                assert(pre[0] == self.ranges@[i as int]);
            }
            if cu >= start && cu - start < length {
                let base = self.ranges[i].base_index;
                proof {
                    assert(self.ranges@[i as int].base_index + self.ranges@[i as int].length
                        <= self.glyphs@.len());
                    assert(base + (cu - start) < glen);
                    assert(spec_glyph_index(pre, c) == Option::Some(
                        self.ranges@[i as int].base_index + (((c as u32)
                            - self.ranges@[i as int].start) as int),
                    ));
                }
                return Some(base + (cu - start) as usize);
            }
            proof {
                assert(self.ranges@.skip(i as int).drop_first() =~= self.ranges@.skip(i as int + 1));
                assert(spec_glyph_index(pre, c) == spec_glyph_index(pre.drop_first(), c));
            }
            i += 1;
        }
        proof {
            assert(self.ranges@.skip(n as int) =~= Seq::<GlyphRange>::empty());
        }
        None
    }

    /// Measure a text: the width is the sum of the advances of its mapped
    /// characters, the height is always `ascender + descender`, independent
    /// of the content.
    pub fn get_text_size(&self, text: &str) -> (r: (u32, u32))
        requires
            self.wf(),
            self.spec_text_width(text@) <= u32::MAX as int,
        ensures
            r.0 == self.spec_text_width(text@),
            r.1 == self.ascender as int + self.descender as int,
    {
        let n = text.unicode_len();
        let mut width: u32 = 0;
        let mut i: usize = 0;
        while i < n
            invariant
                i <= n,
                n == text@.len(),
                self.wf(),
                self.spec_text_width(text@) <= u32::MAX as int,
                width == self.spec_text_width(text@.take(i as int)),
            decreases n - i,
        {
            let c = text.get_char(i);
            proof {
                self.lemma_text_width_take_step(text@, i as int);
                self.lemma_text_width_prefix(text@, i as int + 1);
            }
            match self.get_glyph_index(c) {
                Some(k) => {
                    let adv = self.glyphs[k].advance;
                    proof {
                        assert(adv as int == self.spec_char_advance(text@[i as int]));
                    }
                    width = width + adv;
                },
                None => {},
            }
            i += 1;
        }
        proof {
            assert(text@.take(n as int) =~= text@);
        }
        (width, self.ascender as u32 + self.descender as u32)
    }

    /// Render a text left to right from pen position `(x, y)`: each mapped
    /// character's glyph image is blitted at
    /// `(pen + image_left, y + ascender - image_top)` and the pen advances
    /// by the glyph's advance; unmapped characters draw nothing and advance
    /// nothing.
    pub fn render(
        &self,
        renderer: &mut Renderer,
        clip: Clip,
        text: &str,
        x: i32,
        y: i32,
        color: BlackWhite,
    )
        requires
            old(renderer).wf(),
            self.wf(),
            -0x1000_0000 <= x as int,
            x as int + self.spec_text_width(text@) <= 0x1000_0000,
            -0x1000_0000 <= y as int <= 0x1000_0000,
        ensures
            final(renderer).wf(),
            text_rendered(
                *old(renderer),
                *final(renderer),
                *self,
                text@,
                clip,
                x as int,
                y as int,
                color.spec_is_white(),
            ),
    {
        let ghost r0 = *old(renderer);
        let ghost white = color.spec_is_white();
        let n = text.unicode_len();
        let mut pos: i32 = x;
        let mut i: usize = 0;
        proof {
            assert(text@.take(0) =~= Seq::<char>::empty());
        }
        while i < n
            invariant
                i <= n,
                n == text@.len(),
                self.wf(),
                renderer.wf(),
                white == color.spec_is_white(),
                -0x1000_0000 <= x as int,
                x as int + self.spec_text_width(text@) <= 0x1000_0000,
                -0x1000_0000 <= y as int <= 0x1000_0000,
                pos as int == x as int + self.spec_text_width(text@.take(i as int)),
                text_rendered(r0, *renderer, *self, text@.take(i as int), clip, x as int, y as int, white),
            decreases n - i,
        {
            let c = text.get_char(i);
            proof {
                self.lemma_text_width_take_step(text@, i as int);
                self.lemma_text_width_prefix(text@, i as int);
                self.lemma_text_width_prefix(text@, i as int + 1);
                self.lemma_text_width_prefix(text@, n as int);
                assert(text@.take(i as int + 1) =~= text@.take(i as int).push(text@[i as int]));
            }
            let ghost r1 = *renderer;
            match self.get_glyph_index(c) {
                Some(k) => {
                    proof {
                        assert(spec_glyph_index(self.ranges@, c) == Option::<int>::Some(
                            k as int,
                        ));
                    }
                    let gleft = self.glyphs[k].image_left;
                    let gtop = self.glyphs[k].image_top;
                    let adv = self.glyphs[k].advance;
                    proof {
                        assert(adv as int == self.spec_char_advance(text@[i as int]));
                        assert(pos as int + adv as int == x as int + self.spec_text_width(
                            text@.take(i as int + 1),
                        ));
                    }
                    let gx = pos + gleft as i32;
                    let gy = y + self.ascender as i32 - gtop as i32;
                    self.glyphs[k].image.render_transparent(renderer, clip, gx, gy, color);
                    proof {
                        assert(gx as int == pos as int + self.glyphs@[k as int].image_left as int);
                        assert(gy as int == y as int + self.ascender as int - self.glyphs@[
                            k as int
                        ].image_top as int);
                        assert(glyph_rendered(
                            r1,
                            *renderer,
                            *self,
                            self.glyphs@[k as int],
                            clip,
                            pos as int,
                            y as int,
                            white,
                        ));
                        lemma_text_rendered_push(
                            r0,
                            r1,
                            *renderer,
                            *self,
                            text@.take(i as int),
                            c,
                            clip,
                            x as int,
                            y as int,
                            white,
                        );
                    }
                    pos = pos + adv as i32;
                },
                None => {
                    proof {
                        lemma_text_rendered_push(
                            r0,
                            r1,
                            *renderer,
                            *self,
                            text@.take(i as int),
                            c,
                            clip,
                            x as int,
                            y as int,
                            white,
                        );
                    }
                },
            }
            i += 1;
        }
        proof {
            assert(text@.take(n as int) =~= text@);
        }
    }
}

/// Rendering one more character extends a rendered text: if the renderer
/// stepped from `r1` to `r2` by that character's glyph at the pen position
/// the preceding text left behind (or stood still for an unmapped
/// character), then the whole sequence including it is rendered.
pub proof fn lemma_text_rendered_push(
    r0: Renderer,
    r1: Renderer,
    r2: Renderer,
    font: Font,
    s: Seq<char>,
    ch: char,
    clip: Clip,
    pos: int,
    y: int,
    white: bool,
)
    requires
        text_rendered(r0, r1, font, s, clip, pos, y, white),
        match spec_glyph_index(font.ranges@, ch) {
            Option::None => r2 == r1,
            Option::Some(k) => glyph_rendered(
                r1,
                r2,
                font,
                font.glyphs@[k],
                clip,
                pos + font.spec_text_width(s),
                y,
                white,
            ),
        },
    ensures
        text_rendered(r0, r2, font, s.push(ch), clip, pos, y, white),
    decreases s.len(),
{
    if s.len() == 0 {
        assert(s.push(ch)[0] == ch);
        assert(s.push(ch).drop_first() =~= s);
        match spec_glyph_index(font.ranges@, ch) {
            Option::None => {
                assert(r2 == r1);
                assert(text_rendered(r0, r2, font, s, clip, pos, y, white));
                assert(text_rendered(r0, r2, font, s.push(ch), clip, pos, y, white));
            },
            Option::Some(k) => {
                assert(r1 == r0);
                assert(font.spec_text_width(s) == 0);
                assert(glyph_rendered(r0, r2, font, font.glyphs@[k], clip, pos, y, white));
                assert(text_rendered(r2, r2, font, s, clip, pos + font.glyphs@[k].advance, y, white));
                assert(glyph_rendered(r0, r2, font, font.glyphs@[k], clip, pos, y, white)
                    && text_rendered(
                    r2,
                    r2,
                    font,
                    s.push(ch).drop_first(),
                    clip,
                    pos + font.glyphs@[k].advance,
                    y,
                    white,
                ));
            },
        }
    } else {
        assert(s.push(ch)[0] == s[0]);
        assert(s.push(ch).drop_first() =~= s.drop_first().push(ch));
        font.lemma_text_width_front(s);
        match spec_glyph_index(font.ranges@, s[0]) {
            Option::None => {
                lemma_text_rendered_push(
                    r0,
                    r1,
                    r2,
                    font,
                    s.drop_first(),
                    ch,
                    clip,
                    pos,
                    y,
                    white,
                );
            },
            Option::Some(k) => {
                let rm = choose|rm: Renderer|
                    #[trigger] glyph_rendered(r0, rm, font, font.glyphs@[k], clip, pos, y, white)
                        && text_rendered(
                        rm,
                        r1,
                        font,
                        s.drop_first(),
                        clip,
                        pos + font.glyphs@[k].advance,
                        y,
                        white,
                    );
                lemma_text_rendered_push(
                    rm,
                    r1,
                    r2,
                    font,
                    s.drop_first(),
                    ch,
                    clip,
                    pos + font.glyphs@[k].advance,
                    y,
                    white,
                );
                assert(glyph_rendered(r0, rm, font, font.glyphs@[k], clip, pos, y, white)
                    && text_rendered(
                    rm,
                    r2,
                    font,
                    s.drop_first().push(ch),
                    clip,
                    pos + font.glyphs@[k].advance,
                    y,
                    white,
                ));
            },
        }
    }
}

/// A drawable text: the string, its anchor, the alignment offset that
/// `align` computes, and the color its glyphs fill with.
pub struct Text {
    pub text: String,
    pub x: i32,
    pub y: i32,
    pub x_align: i32,
    pub color: BlackWhite,
}

impl Text {
    pub fn new(x: i32, y: i32, text: String, color: BlackWhite) -> (r: Text)
        ensures
            r.x == x,
            r.y == y,
            r.text == text,
            r.x_align == 0,
            r.color == color,
    {
        Text { text, x, y, x_align: 0, color }
    }

    /// Precompute the horizontal alignment offset: nothing for `Left`, the
    /// full measured width for `Right`, half of it (truncated) for
    /// `Center`, each applied leftwards. `Center`-aligned text of measured
    /// width `w` anchored at `x` therefore occupies
    /// `[x - w / 2, x - w / 2 + w)`.
    pub fn align(&mut self, align: TextAlignment, font: &Font)
        requires
            font.wf(),
            font.spec_text_width(old(self).text@) <= i32::MAX as int,
        ensures
            final(self).text == old(self).text,
            final(self).x == old(self).x,
            final(self).y == old(self).y,
            final(self).color == old(self).color,
            final(self).x_align == match align {
                TextAlignment::Left => 0,
                TextAlignment::Right => -font.spec_text_width(old(self).text@),
                TextAlignment::Center => -(font.spec_text_width(old(self).text@) / 2),
            },
    {
        proof {
            font.lemma_text_width_nonneg(self.text@);
        }
        match align {
            TextAlignment::Left => {
                self.x_align = 0;
            },
            TextAlignment::Right => {
                let (w, _h) = font.get_text_size(self.text.as_str());
                self.x_align = -(w as i32);
            },
            TextAlignment::Center => {
                let (w, _h) = font.get_text_size(self.text.as_str());
                self.x_align = -((w / 2) as i32);
            },
        }
    }

    /// Render the text at its anchor, shifted by the alignment offset.
    pub fn draw(&self, font: &Font, clip: Clip, renderer: &mut Renderer)
        requires
            old(renderer).wf(),
            font.wf(),
            -0x1000_0000 <= self.x as int + self.x_align as int,
            self.x as int + self.x_align as int + font.spec_text_width(self.text@)
                <= 0x1000_0000,
            -0x1000_0000 <= self.y as int <= 0x1000_0000,
        ensures
            final(renderer).wf(),
            text_rendered(
                *old(renderer),
                *final(renderer),
                *font,
                self.text@,
                clip,
                self.x as int + self.x_align as int,
                self.y as int,
                self.color.spec_is_white(),
            ),
    {
        proof {
            font.lemma_text_width_nonneg(self.text@);
        }
        font.render(renderer, clip, self.text.as_str(), self.x + self.x_align, self.y, self.color);
    }
}

} // verus!
