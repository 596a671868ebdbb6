use tinygfx::color::BlackWhite;

/// Pixel `x` of a packed row, most significant bit first.
fn pixel(buf: &[u8], x: usize) -> bool {
    (buf[x / 8] & (0x80u8 >> (x % 8))) != 0
}

#[test]
fn bitmap_test() {
    // (color, x, bitmap, left, right, expected)
    let cases: Vec<(BlackWhite, i32, Vec<u8>, i32, i32, Vec<u8>)> = vec![
        (BlackWhite::White, 3, vec![0], 3, 4, vec![0, 0, 0, 0]),
        (BlackWhite::White, 3, vec![0xff], 3, 4, vec![0x02, 0x00, 0x00, 0x00]),
        (BlackWhite::White, 3, vec![0xff], 0, 8, vec![0x1f, 0xe0, 0x00, 0x00]),
        (BlackWhite::White, 0, vec![0xff], 0, 8, vec![0xff, 0x00, 0x00, 0x00]),
        (BlackWhite::White, 0, vec![0xff], 3, 7, vec![0x1e, 0x00, 0x00, 0x00]),
    ];
    for (color, x, bitmap, left, right, expected) in cases {
        let mut output: Vec<u8> = vec![0; 4];
        color.render_bitmap_row(&mut output, x, &bitmap, left, right);
        assert_eq!(output, expected);
    }
}

#[test]
fn fill_sets_exactly_the_range() {
    let ranges: [(i32, i32); 8] = [(0, 0), (0, 32), (4, 16), (2, 6), (7, 9), (8, 16), (5, 5), (15, 32)];
    for &(left, right) in ranges.iter() {
        let mut white_buf: Vec<u8> = vec![0; 4];
        BlackWhite::White.fill(&mut white_buf, left, right);
        for x in 0..32i32 {
            assert_eq!(pixel(&white_buf, x as usize), left <= x && x < right);
        }
        let mut black_buf: Vec<u8> = vec![0xff; 4];
        BlackWhite::Black.fill(&mut black_buf, left, right);
        for x in 0..32i32 {
            assert_eq!(pixel(&black_buf, x as usize), !(left <= x && x < right));
        }
    }
}

#[test]
fn fill_reversed_range_is_a_no_op() {
    let mut buf: Vec<u8> = vec![0x5a, 0xa5];
    BlackWhite::White.fill(&mut buf, 9, 3);
    assert_eq!(buf, vec![0x5a, 0xa5]);
    BlackWhite::Black.fill(&mut buf, 12, 12);
    assert_eq!(buf, vec![0x5a, 0xa5]);
}

#[test]
fn fill_fixture_rows() {
    let mut a: Vec<u8> = vec![0; 4];
    BlackWhite::White.fill(&mut a, 4, 16);
    assert_eq!(a, vec![0x0f, 0xff, 0x00, 0x00]);

    let mut b: Vec<u8> = vec![0xff; 4];
    BlackWhite::Black.fill(&mut b, 2, 6);
    assert_eq!(b, vec![0xc3, 0xff, 0xff, 0xff]);
}

#[test]
fn mirror_x_reverses_and_round_trips() {
    // Width 12: the last four bits of the second byte are padding.
    let orig: Vec<u8> = vec![0b1010_1011, 0b1101_0111];
    let mut buf = orig.clone();
    BlackWhite::mirror_x(&mut buf, 12);
    for i in 0..12 {
        assert_eq!(pixel(&buf, i), pixel(&orig, 11 - i));
    }
    for i in 12..16 {
        assert!(!pixel(&buf, i));
    }
    BlackWhite::mirror_x(&mut buf, 12);
    for i in 0..12 {
        assert_eq!(pixel(&buf, i), pixel(&orig, i));
    }
    for i in 12..16 {
        assert!(!pixel(&buf, i));
    }
}

#[test]
fn mirror_x_round_trip_is_exact_without_padding() {
    let orig: Vec<u8> = vec![0x12, 0x34, 0x56, 0x78];
    let mut buf = orig.clone();
    BlackWhite::mirror_x(&mut buf, 32);
    BlackWhite::mirror_x(&mut buf, 32);
    assert_eq!(buf, orig);

    let mut single: Vec<u8> = vec![0b1100_0001];
    BlackWhite::mirror_x(&mut single, 8);
    assert_eq!(single, vec![0b1000_0011]);
}

#[test]
fn render_bitmap_row_copies_each_alignment() {
    let src: Vec<u8> = vec![0xa5, 0x3c, 0x9b];
    let cases: [(i32, i32, i32); 7] =
        [(0, 0, 24), (5, 0, 24), (3, 2, 22), (8, 0, 16), (11, 3, 4), (6, 5, 21), (-3, 8, 24)];
    for &(x, left, right) in cases.iter() {
        let mut dst: Vec<u8> = vec![0b0101_0101; 5];
        let before = dst.clone();
        BlackWhite::White.render_bitmap_row(&mut dst, x, &src, left, right);
        for p in 0..40i32 {
            let expect = if x + left <= p && p < x + right {
                pixel(&src, (p - x) as usize)
            } else {
                pixel(&before, p as usize)
            };
            assert_eq!(pixel(&dst, p as usize), expect);
        }
    }
}

#[test]
fn render_bitmap_row_naive_matches_fast_paths() {
    let src: Vec<u8> = vec![0x37, 0xd2];
    let mut fast: Vec<u8> = vec![0xf0, 0x0f, 0x55];
    let mut slow: Vec<u8> = vec![0xf0, 0x0f, 0x55];
    BlackWhite::White.render_bitmap_row(&mut fast, 3, &src, 1, 15);
    BlackWhite::White.render_bitmap_row_naive(&mut slow, 3, &src, 1, 15);
    assert_eq!(fast, slow);
}

#[test]
fn bits_per_pixel_is_one() {
    assert_eq!(BlackWhite::bits_per_pixel(), 1);
}
