use tinygfx::color::BlackWhite;
use tinygfx::Frame;
use tinygfx::Rectangle;
use tinygfx::Renderer;

/// A fixed draw callback: a white rectangle over rows 1..3, pixels 3..13,
/// issued with full-canvas coordinates on every chunk.
fn draw_rect(mut r: Renderer) -> Renderer {
    let clip = r.full_frame();
    let rect = Rectangle::new(3, 1, 10, 2, BlackWhite::White);
    rect.draw(clip, &mut r);
    r
}

#[test]
fn partial_frame_chunks_match_whole() {
    // 16x4 canvas, stride 2: whole render in one call.
    let mut whole: Vec<u8> = vec![0; 8];
    Frame::new(16, 4, draw_rect).draw_part(0, &mut whole);

    // The same render in two two-row chunks.
    let frame = Frame::new(16, 4, draw_rect);
    let mut first: Vec<u8> = vec![0; 4];
    frame.draw_part(0, &mut first);
    let mut second: Vec<u8> = vec![0; 4];
    frame.draw_part(2, &mut second);

    let mut chunked = first.clone();
    chunked.extend_from_slice(&second);
    assert_eq!(whole, chunked);

    // And in four single-row chunks.
    let mut by_rows: Vec<u8> = Vec::new();
    for y in 0..4u32 {
        let mut row: Vec<u8> = vec![0; 2];
        frame.draw_part(y, &mut row);
        by_rows.extend_from_slice(&row);
    }
    assert_eq!(whole, by_rows);
}

#[test]
fn partial_frame_chunks_match_whole_with_mirror_y() {
    let mut whole_frame = Frame::new(16, 4, draw_rect);
    whole_frame.mirror_y(true);
    let mut whole: Vec<u8> = vec![0; 8];
    whole_frame.draw_part(0, &mut whole);

    let mut chunk_frame = Frame::new(16, 4, draw_rect);
    chunk_frame.mirror_y(true);
    let mut first: Vec<u8> = vec![0; 4];
    chunk_frame.draw_part(0, &mut first);
    let mut second: Vec<u8> = vec![0; 4];
    chunk_frame.draw_part(2, &mut second);

    let mut chunked = first.clone();
    chunked.extend_from_slice(&second);
    assert_eq!(whole, chunked);
}

#[test]
fn partial_frame_chunks_match_whole_with_mirror_x() {
    let mut whole_frame = Frame::new(16, 4, draw_rect);
    whole_frame.mirror_x(true);
    let mut whole: Vec<u8> = vec![0; 8];
    whole_frame.draw_part(0, &mut whole);

    let mut chunk_frame = Frame::new(16, 4, draw_rect);
    chunk_frame.mirror_x(true);
    let mut chunked: Vec<u8> = Vec::new();
    for y in 0..4u32 {
        let mut row: Vec<u8> = vec![0; 2];
        chunk_frame.draw_part(y, &mut row);
        chunked.extend_from_slice(&row);
    }
    assert_eq!(whole, chunked);
}

#[test]
fn draw_part_renders_the_expected_rows() {
    // Rows 0 and 3 stay clear, rows 1 and 2 carry pixels 3..13.
    let mut whole: Vec<u8> = vec![0; 8];
    Frame::new(16, 4, draw_rect).draw_part(0, &mut whole);
    assert_eq!(whole, vec![0x00, 0x00, 0x1f, 0xf8, 0x1f, 0xf8, 0x00, 0x00]);
}

#[test]
fn mirror_y_reads_the_opposite_end() {
    // With y-mirroring, the chunk at 0 holds the bottom rows, bottom-most
    // first: rows 3 and 2 of the canvas.
    let mut frame = Frame::new(16, 4, draw_rect);
    frame.mirror_y(true);
    let mut chunk: Vec<u8> = vec![0; 4];
    frame.draw_part(0, &mut chunk);
    assert_eq!(chunk, vec![0x00, 0x00, 0x1f, 0xf8]);
}

#[test]
fn mirror_x_reverses_every_row() {
    // Pixels 3..13 mirrored across width 16 become pixels 3..13 again only
    // for a centered rectangle; rectangle 2..5 lands on 11..14.
    fn draw_small(mut r: Renderer) -> Renderer {
        let clip = r.full_frame();
        r.fill(clip, 2, 0, 5, 1, BlackWhite::White);
        r
    }
    let mut frame = Frame::new(16, 1, draw_small);
    frame.mirror_x(true);
    let mut buf: Vec<u8> = vec![0; 2];
    frame.draw_part(0, &mut buf);
    assert_eq!(buf, vec![0b0000_0000, 0b0001_1100]);
}

#[test]
fn frame_getters_and_flags() {
    let mut frame = Frame::new(9, 7, draw_rect);
    assert_eq!(frame.width(), 9);
    assert_eq!(frame.height(), 7);
    frame.mirror_x(true);
    frame.mirror_y(true);
    frame.mirror_x(false);
    let mut buf: Vec<u8> = vec![0; 2];
    frame.draw_part(0, &mut buf);
    // The strip is canvas row 6, above the rectangle: nothing drawn.
    assert_eq!(buf, vec![0x00, 0x00]);
}
