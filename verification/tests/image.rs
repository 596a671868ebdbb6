use tinygfx::color::BlackWhite;
use tinygfx::image::MonoBitmapImage;
use tinygfx::image::MonoImageData;
use tinygfx::MonoImage;
use tinygfx::Renderer;

#[test]
fn bitmap_image_renders_rows_with_padded_stride() {
    // A 6x3 image stored with a two-byte stride: the second byte of each
    // row is padding and must never reach the canvas.
    let img = MonoBitmapImage {
        data: vec![0b1010_1000, 0xff, 0b0101_0100, 0xff, 0b1111_1100, 0xff],
        width: 6,
        height: 3,
        stride: 2,
    };
    let mut r = Renderer {
        buffer: vec![0u8; 3],
        width: 8,
        height: 3,
        current_top: 0,
        current_bottom: 3,
        mirror_y: false,
    };
    let clip = r.full_frame();
    img.render_transparent(&mut r, clip, 1, 0, BlackWhite::White);
    assert_eq!(r.buffer, vec![0b0101_0100, 0b0010_1010, 0b0111_1110]);
}

#[test]
fn bitmap_image_rows_outside_the_clip_stay() {
    let img = MonoBitmapImage { data: vec![0xff, 0xff], width: 8, height: 2, stride: 1 };
    let mut r = Renderer {
        buffer: vec![0u8; 2],
        width: 8,
        height: 2,
        current_top: 0,
        current_bottom: 2,
        mirror_y: false,
    };
    let clip = r.full_frame().clip_top(1);
    img.render_transparent(&mut r, clip, 0, 0, BlackWhite::White);
    assert_eq!(r.buffer, vec![0x00, 0xff]);
}

#[test]
fn mono_image_drawable_draws_at_its_anchor() {
    let drawable = MonoImage::new(
        2,
        1,
        MonoImageData::Bitmap(MonoBitmapImage {
            data: vec![0b1100_0000],
            width: 2,
            height: 1,
            stride: 1,
        }),
        BlackWhite::White,
    );
    let mut r = Renderer {
        buffer: vec![0u8; 2],
        width: 8,
        height: 2,
        current_top: 0,
        current_bottom: 2,
        mirror_y: false,
    };
    let clip = r.full_frame();
    drawable.draw(clip, &mut r);
    assert_eq!(r.buffer, vec![0b0000_0000, 0b0011_0000]);
}

#[test]
fn bitmap_image_reports_its_dimensions() {
    let img = MonoBitmapImage { data: vec![0; 6], width: 11, height: 3, stride: 2 };
    assert_eq!(img.width(), 11);
    assert_eq!(img.height(), 3);
    let wrapped = MonoImageData::Bitmap(img);
    assert_eq!(wrapped.width(), 11);
    assert_eq!(wrapped.height(), 3);
}
