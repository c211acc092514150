use glyph_cache::bitmap::BitmapRGBA;
use glyph_cache::dimen::UVec2;

#[test]
fn new_bitmap_is_fully_transparent() {
    let b = BitmapRGBA::new(UVec2::new(3, 2));
    assert_eq!(b.data().len(), 3 * 2 * 4);
    assert!(b.data().iter().all(|&v| v == 0));
}

#[test]
fn draw_glyph_writes_white_with_coverage_alpha() {
    let mut b = BitmapRGBA::new(UVec2::new(2, 2));
    let coverage: Vec<u8> = vec![10, 20, 30, 40];
    b.draw_glyph(&coverage);

    for (pixel, &alpha) in coverage.iter().enumerate() {
        let x = (pixel % 2) as u32;
        let y = (pixel / 2) as u32;
        assert_eq!(b.byte(x, y, 0), 255);
        assert_eq!(b.byte(x, y, 1), 255);
        assert_eq!(b.byte(x, y, 2), 255);
        assert_eq!(b.byte(x, y, 3), alpha);
    }
}

#[test]
fn blit_copies_rows_and_leaves_the_rest() {
    let mut src = BitmapRGBA::new(UVec2::new(2, 2));
    src.draw_glyph(&vec![1, 2, 3, 4]);

    let mut dest = BitmapRGBA::new(UVec2::new(4, 4));
    dest.draw_bitmap_at(&src, &UVec2::new(1, 2));

    for y in 0..4u32 {
        for x in 0..4u32 {
            let inside = (1..3).contains(&x) && (2..4).contains(&y);
            if inside {
                let sx = x - 1;
                let sy = y - 2;
                assert_eq!(dest.byte(x, y, 0), 255);
                assert_eq!(dest.byte(x, y, 3), src.byte(sx, sy, 3));
            } else {
                for c in 0..4u32 {
                    assert_eq!(dest.byte(x, y, c), 0);
                }
            }
        }
    }
}

#[test]
fn clear_zeroes_every_byte() {
    let mut b = BitmapRGBA::new(UVec2::new(2, 1));
    b.draw_glyph(&vec![200, 201]);
    assert_eq!(b.byte(0, 0, 0), 255);
    b.clear();
    assert!(b.data().iter().all(|&v| v == 0));
}
