use tinygfx::color::BlackWhite;
use tinygfx::font::Font;
use tinygfx::font::Glyph;
use tinygfx::font::GlyphRange;
use tinygfx::image::MonoBitmapImage;
use tinygfx::image::MonoImageData;
use tinygfx::Renderer;
use tinygfx::Text;
use tinygfx::TextAlignment;

/// A glyph whose image is one solid row of `w` pixels, with the given
/// advance.
fn solid_glyph(w: u16, advance: u32) -> Glyph {
    let stride = (w + 7) / 8;
    Glyph {
        image: MonoImageData::Bitmap(MonoBitmapImage {
            data: vec![0xff; stride as usize],
            width: w,
            height: 1,
            stride,
        }),
        image_left: 0,
        image_top: 1,
        advance,
    }
}

/// A font mapping 'a', 'b', 'c' to three glyphs with advances 3, 4 and 5.
fn abc_font() -> Font {
    Font {
        ascender: 1,
        descender: 2,
        glyphs: vec![solid_glyph(3, 3), solid_glyph(4, 4), solid_glyph(5, 5)],
        ranges: vec![GlyphRange { start: 'a' as u32, length: 3, base_index: 0 }],
    }
}

#[test]
fn get_text_size_sums_the_advances() {
    let font = abc_font();
    let (w, h) = font.get_text_size("abc");
    assert_eq!(w, 3 + 4 + 5);
    assert_eq!(h, 1 + 2);
}

#[test]
fn get_text_size_skips_unmapped_characters() {
    let font = abc_font();
    let (w, h) = font.get_text_size("a!c");
    assert_eq!(w, 3 + 5);
    assert_eq!(h, 3);
    let (empty_w, empty_h) = font.get_text_size("");
    assert_eq!(empty_w, 0);
    assert_eq!(empty_h, 3);
}

#[test]
fn get_glyph_index_matches_the_ranges() {
    let font = Font {
        ascender: 1,
        descender: 0,
        glyphs: vec![solid_glyph(1, 1), solid_glyph(1, 1), solid_glyph(1, 1), solid_glyph(1, 1)],
        ranges: vec![
            GlyphRange { start: '0' as u32, length: 3, base_index: 0 },
            GlyphRange { start: 'x' as u32, length: 1, base_index: 3 },
        ],
    };
    assert_eq!(font.get_glyph_index('0'), Some(0));
    assert_eq!(font.get_glyph_index('1'), Some(1));
    assert_eq!(font.get_glyph_index('2'), Some(2));
    assert_eq!(font.get_glyph_index('3'), None);
    assert_eq!(font.get_glyph_index('x'), Some(3));
    assert_eq!(font.get_glyph_index('y'), None);
}

#[test]
fn text_alignment_offsets() {
    let font = abc_font();
    let mut text = Text::new(20, 0, String::from("abc"), BlackWhite::White);
    assert_eq!(text.x_align, 0);
    text.align(TextAlignment::Right, &font);
    assert_eq!(text.x_align, -12);
    text.align(TextAlignment::Center, &font);
    assert_eq!(text.x_align, -6);
    text.align(TextAlignment::Left, &font);
    assert_eq!(text.x_align, 0);
}

#[test]
fn center_aligned_text_occupies_the_centered_range() {
    // A font of one glyph: eight solid pixels, advance 8.
    let font = Font {
        ascender: 1,
        descender: 0,
        glyphs: vec![solid_glyph(8, 8)],
        ranges: vec![GlyphRange { start: 'a' as u32, length: 1, base_index: 0 }],
    };
    let mut r = Renderer {
        buffer: vec![0u8; 4],
        width: 32,
        height: 1,
        current_top: 0,
        current_bottom: 1,
        mirror_y: false,
    };
    let clip = r.full_frame();
    let mut text = Text::new(16, 0, String::from("aa"), BlackWhite::White);
    text.align(TextAlignment::Center, &font);
    assert_eq!(text.x_align, -8);
    text.draw(&font, clip, &mut r);
    // Measured width 16, anchor 16: pixels 8..24.
    assert_eq!(r.buffer, vec![0x00, 0xff, 0xff, 0x00]);
}

#[test]
fn render_positions_glyphs_by_metrics() {
    // ascender 2, image_top 1: the glyph row lands one row below the pen.
    let font = Font {
        ascender: 2,
        descender: 0,
        glyphs: vec![Glyph {
            image: MonoImageData::Bitmap(MonoBitmapImage {
                data: vec![0xf0],
                width: 4,
                height: 1,
                stride: 1,
            }),
            image_left: 2,
            image_top: 1,
            advance: 6,
        }],
        ranges: vec![GlyphRange { start: 'a' as u32, length: 1, base_index: 0 }],
    };
    let mut r = Renderer {
        buffer: vec![0u8; 2],
        width: 8,
        height: 2,
        current_top: 0,
        current_bottom: 2,
        mirror_y: false,
    };
    let clip = r.full_frame();
    font.render(&mut r, clip, "a", 0, 0, BlackWhite::White);
    // Pen (0, 0): the image lands at (0 + 2, 0 + 2 - 1) = (2, 1).
    assert_eq!(r.buffer, vec![0b0000_0000, 0b0011_1100]);
}

#[test]
fn render_skips_unmapped_characters() {
    let font = abc_font();
    let mut r = Renderer {
        buffer: vec![0u8; 2],
        width: 16,
        height: 1,
        current_top: 0,
        current_bottom: 1,
        mirror_y: false,
    };
    let clip = r.full_frame();
    // Only 'a' draws; '?' consumes no advance, so 'a' appears twice in a
    // row: pixels 0..3 from the first, 3..6 from the second.
    font.render(&mut r, clip, "a?a", 0, 0, BlackWhite::White);
    assert_eq!(r.buffer, vec![0b1111_1100, 0b0000_0000]);
}
