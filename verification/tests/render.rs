use tinygfx::color::BlackWhite;
use tinygfx::Frame;
use tinygfx::Renderer;

struct FillTest {
    before: Vec<u8>,
    clip: (i32, i32),
    fill: (i32, i32),
    color: BlackWhite,
    ok: Vec<u8>,
}

#[test]
fn test_row_renderer_fill() {
    let tests = vec![
        FillTest {
            before: vec![0; 4],
            clip: (0, 32),
            fill: (4, 16),
            color: BlackWhite::White,
            ok: vec![0x0f, 0xff, 0x0, 0x0],
        },
        FillTest {
            before: vec![0; 4],
            clip: (0, 32),
            fill: (4, 20),
            color: BlackWhite::White,
            ok: vec![0x0f, 0xff, 0xf0, 0x0],
        },
        FillTest {
            before: vec![0; 4],
            clip: (0, 32),
            fill: (2, 6),
            color: BlackWhite::White,
            ok: vec![0x3c, 0x0, 0x0, 0x0],
        },
        FillTest {
            before: vec![0; 4],
            clip: (0, 32),
            fill: (2, 6),
            color: BlackWhite::Black,
            ok: vec![0x0, 0x0, 0x0, 0x0],
        },
        FillTest {
            before: vec![0xff; 4],
            clip: (0, 32),
            fill: (2, 6),
            color: BlackWhite::Black,
            ok: vec![0xc3, 0xff, 0xff, 0xff],
        },
        FillTest {
            before: vec![0; 4],
            clip: (0, 32),
            fill: (5, 5),
            color: BlackWhite::White,
            ok: vec![0; 4],
        },
        FillTest {
            before: vec![0; 4],
            clip: (0, 32),
            fill: (-5, -4),
            color: BlackWhite::White,
            ok: vec![0; 4],
        },
        FillTest {
            before: vec![0; 4],
            clip: (9, 32),
            fill: (4, 12),
            color: BlackWhite::White,
            ok: vec![0, 0x70, 0, 0],
        },
        FillTest {
            before: vec![0; 4],
            clip: (6, 5),
            fill: (4, 12),
            color: BlackWhite::White,
            ok: vec![0, 0, 0, 0],
        },
        FillTest {
            before: vec![0; 4],
            clip: (0, 32),
            fill: (16, 32),
            color: BlackWhite::White,
            ok: vec![0, 0, 0xff, 0xff],
        },
    ];
    for test in &tests {
        let mut buffer = test.before.clone();
        Frame::new(32, 1, |mut renderer: Renderer| -> Renderer {
            let clip = renderer.full_frame();
            let clip = clip.clip_left(test.clip.0).clip_right(test.clip.1);
            renderer.fill(clip, test.fill.0, 0, test.fill.1, 1, test.color);
            renderer
        })
        .draw_part(0, &mut buffer);
        assert_eq!(buffer, test.ok);
    }
}

#[test]
fn fill_scenario_fixtures() {
    // A 32-pixel-wide, one-row canvas.
    let mut white_buf: Vec<u8> = vec![0; 4];
    Frame::new(32, 1, |mut r: Renderer| -> Renderer {
        let clip = r.full_frame();
        r.fill(clip, 4, 0, 16, 1, BlackWhite::White);
        r
    })
    .draw_part(0, &mut white_buf);
    assert_eq!(white_buf, vec![0x0f, 0xff, 0x00, 0x00]);

    let mut black_buf: Vec<u8> = vec![0xff; 4];
    Frame::new(32, 1, |mut r: Renderer| -> Renderer {
        let clip = r.full_frame();
        r.fill(clip, 2, 0, 6, 1, BlackWhite::Black);
        r
    })
    .draw_part(0, &mut black_buf);
    assert_eq!(black_buf, vec![0xc3, 0xff, 0xff, 0xff]);
}

#[test]
fn fill_ignores_rows_outside_the_strip() {
    // A strip covering rows 2..4 of a 16x6 canvas: a fill spanning rows 0..6
    // only lands on the two rows of the strip.
    let mut r = Renderer {
        buffer: vec![0u8; 4],
        width: 16,
        height: 6,
        current_top: 2,
        current_bottom: 4,
        mirror_y: false,
    };
    let clip = r.full_frame();
    r.fill(clip, 4, 0, 12, 6, BlackWhite::White);
    assert_eq!(r.buffer, vec![0x0f, 0xf0, 0x0f, 0xf0]);
}

#[test]
fn fill_honors_mirror_y_row_addressing() {
    // With y-mirroring, canvas row `current_bottom - 1` is buffer row 0.
    let mut r = Renderer {
        buffer: vec![0u8; 4],
        width: 16,
        height: 4,
        current_top: 0,
        current_bottom: 2,
        mirror_y: true,
    };
    let clip = r.full_frame();
    r.fill(clip, 0, 0, 16, 1, BlackWhite::White);
    assert_eq!(r.buffer, vec![0x00, 0x00, 0xff, 0xff]);
}

#[test]
fn vertically_empty_clip_draws_nothing() {
    // A clip that is vertically empty but horizontally non-empty is not
    // reported empty, yet nothing is drawn through it.
    let mut r = Renderer {
        buffer: vec![0u8; 2],
        width: 16,
        height: 1,
        current_top: 0,
        current_bottom: 1,
        mirror_y: false,
    };
    let clip = r.full_frame().clip_top(1).clip_bottom(0);
    assert!(!clip.is_empty());
    r.fill(clip, 0, 0, 16, 1, BlackWhite::White);
    assert_eq!(r.buffer, vec![0x00, 0x00]);
}

#[test]
fn clear_fills_the_whole_strip() {
    let mut r = Renderer {
        buffer: vec![0u8; 4],
        width: 12,
        height: 2,
        current_top: 0,
        current_bottom: 2,
        mirror_y: false,
    };
    r.clear(BlackWhite::White);
    // Twelve pixels per row: the four padding bits stay clear.
    assert_eq!(r.buffer, vec![0xff, 0xf0, 0xff, 0xf0]);
    assert_eq!(r.current_top_row(), 0);
    assert_eq!(r.current_bottom_row(), 2);
}

#[test]
fn render_rle_row_skips_transparently() {
    let mut r = Renderer {
        buffer: vec![0b0000_1111u8, 0u8],
        width: 16,
        height: 1,
        current_top: 0,
        current_bottom: 1,
        mirror_y: false,
    };
    let clip = r.full_frame();
    // Fill 4, skip 8, fill 4: the skipped middle leaves the background.
    let runs: Vec<u16> = vec![0x8004, 0x0008, 0x8004];
    r.render_rle_row(clip, 0, 0, &runs, BlackWhite::White);
    assert_eq!(r.buffer, vec![0b1111_1111, 0b0000_1111]);
}

#[test]
fn render_rle_row_clips_runs() {
    let mut r = Renderer {
        buffer: vec![0u8; 2],
        width: 16,
        height: 1,
        current_top: 0,
        current_bottom: 1,
        mirror_y: false,
    };
    let clip = r.full_frame().clip_left(6).clip_right(12);
    // One filling run across the whole row, bounded to pixels 6..12.
    let runs: Vec<u16> = vec![0x8010];
    r.render_rle_row(clip, 0, 0, &runs, BlackWhite::White);
    assert_eq!(r.buffer, vec![0b0000_0011, 0b1111_0000]);
}

#[test]
fn render_bitmap_row_via_renderer_clips_to_the_canvas() {
    let mut r = Renderer {
        buffer: vec![0u8; 2],
        width: 16,
        height: 1,
        current_top: 0,
        current_bottom: 1,
        mirror_y: false,
    };
    let clip = r.full_frame();
    // An eight-pixel source spanning destination pixels -3..5: only the
    // last five source bits land on the canvas.
    let bits: Vec<u8> = vec![0xff];
    r.render_bitmap_row(clip, 0, -3, 5, &bits, BlackWhite::White);
    assert_eq!(r.buffer, vec![0b1111_1000, 0b0000_0000]);
}
