use tinygfx::color::BlackWhite;
use tinygfx::image::MonoImageData;
use tinygfx::image::MonoRLEImage;
use tinygfx::rle::encode_rle_row;
use tinygfx::Renderer;

#[test]
fn encode_rle_row_alternating_runs() {
    // Pixels: 111 000 111, width 9.
    let row: Vec<u8> = vec![0b1110_0011, 0b1000_0000];
    let runs = encode_rle_row(&row, 9);
    assert_eq!(runs, vec![0x8003, 0x0003, 0x8003]);
    let total: u32 = runs.iter().map(|w| (w & 0x7fff) as u32).sum();
    assert_eq!(total, 9);
}

#[test]
fn encode_rle_row_uniform_and_empty() {
    let ones: Vec<u8> = vec![0xff, 0xff];
    assert_eq!(encode_rle_row(&ones, 16), vec![0x8010]);
    let zeros: Vec<u8> = vec![0x00];
    assert_eq!(encode_rle_row(&zeros, 8), vec![0x0008]);
    let empty: Vec<u8> = vec![];
    assert_eq!(encode_rle_row(&empty, 0), Vec::<u16>::new());
}

#[test]
fn encode_rle_row_lengths_sum_to_width() {
    let row: Vec<u8> = vec![0b1010_1100, 0b0111_0001, 0b1111_0000];
    for width in [1u16, 5, 8, 13, 17, 20] {
        let runs = encode_rle_row(&row, width);
        let total: u32 = runs.iter().map(|w| (w & 0x7fff) as u32).sum();
        assert_eq!(total, width as u32);
    }
}

#[test]
fn rle_image_renders_its_rows() {
    // Two rows of width 8: row 0 fills pixels 0..4, row 1 fills 4..8.
    let img = MonoRLEImage {
        data: vec![3, 5, 7, 0x8004, 0x0004, 0x0004, 0x8004],
        width: 8,
        height: 2,
    };
    let mut r = Renderer {
        buffer: vec![0u8; 2],
        width: 8,
        height: 2,
        current_top: 0,
        current_bottom: 2,
        mirror_y: false,
    };
    let clip = r.full_frame();
    img.render_transparent(&mut r, clip, 0, 0, BlackWhite::White);
    assert_eq!(r.buffer, vec![0xf0, 0x0f]);
}

#[test]
fn rle_image_composites_over_background() {
    let img = MonoRLEImage {
        data: vec![2, 4, 0x8004, 0x0004],
        width: 8,
        height: 1,
    };
    let mut r = Renderer {
        buffer: vec![0b0000_1111u8],
        width: 8,
        height: 1,
        current_top: 0,
        current_bottom: 1,
        mirror_y: false,
    };
    let clip = r.full_frame();
    img.render_transparent(&mut r, clip, 0, 0, BlackWhite::White);
    // The skipped second half keeps the background bits.
    assert_eq!(r.buffer, vec![0xff]);
}

#[test]
fn rle_image_clips_to_the_strip() {
    let img = MonoRLEImage {
        data: vec![4, 6, 8, 10, 0x8008, 0x0000, 0x0008, 0x0000, 0x8008, 0x0000],
        width: 8,
        height: 3,
    };
    // Only canvas row 1 is in the strip: the image's middle (skip) row.
    let mut r = Renderer {
        buffer: vec![0xaau8],
        width: 8,
        height: 3,
        current_top: 1,
        current_bottom: 2,
        mirror_y: false,
    };
    let clip = r.full_frame();
    img.render_transparent(&mut r, clip, 0, 0, BlackWhite::White);
    assert_eq!(r.buffer, vec![0xaa]);
}

#[test]
fn encode_then_render_reproduces_the_row() {
    let row: Vec<u8> = vec![0b1011_0010, 0b0110_0000];
    let width: u16 = 11;
    let runs = encode_rle_row(&row, width);
    let mut data: Vec<u16> = vec![2, 2 + runs.len() as u16];
    data.extend_from_slice(&runs);
    let img = MonoRLEImage { data, width, height: 1 };
    let mut r = Renderer {
        buffer: vec![0u8; 2],
        width: 11,
        height: 1,
        current_top: 0,
        current_bottom: 1,
        mirror_y: false,
    };
    let clip = r.full_frame();
    img.render_transparent(&mut r, clip, 0, 0, BlackWhite::White);
    // All eleven pixels round-trip; the padding stays clear.
    assert_eq!(r.buffer, vec![0b1011_0010, 0b0110_0000]);
}

#[test]
fn mono_image_data_enum_dispatches() {
    let rle = MonoImageData::Rle(MonoRLEImage {
        data: vec![2, 4, 0x8002, 0x0004],
        width: 6,
        height: 1,
    });
    assert_eq!(rle.width(), 6);
    assert_eq!(rle.height(), 1);
    let mut r = Renderer {
        buffer: vec![0u8],
        width: 6,
        height: 1,
        current_top: 0,
        current_bottom: 1,
        mirror_y: false,
    };
    let clip = r.full_frame();
    rle.render_transparent(&mut r, clip, 0, 0, BlackWhite::White);
    assert_eq!(r.buffer, vec![0b1100_0000]);
}
