use glyph_cache::quantize::round_to_pixels;
use glyph_cache::quantize::subpixel_offset_millipixels;
use glyph_cache::quantize::QuantizedDimension;

#[test]
fn quantize_round_trips_within_half_a_bucket() {
    // Quantization keeps tenths of a pixel: mapping back to millipixels
    // moves any value by at most 50 millipixels, that is 0.05 px.
    let samples: Vec<i32> = vec![
        0, 1, 49, 50, 51, 99, 100, 101, 149, 150, 1049, 1050, -1, -49, -50, -51, -99, -100, -1049,
        -1050, 123_456, -987_654, 2_000_000_000, -2_000_000_000,
    ];
    for m in samples {
        let q = QuantizedDimension::from_millipixels(m);
        let back = q.to_millipixels();
        assert!((back as i64 - m as i64).abs() <= 50);
        // The same bound holds in pixels, within floating-point slack.
        let p = m as f64 / 1000.0;
        let back_p = back as f64 / 1000.0;
        assert!((back_p - p).abs() <= 0.05 + 1e-9);
    }
}

#[test]
fn quantize_exact_values() {
    // round(m / 100), halves away from zero.
    assert_eq!(QuantizedDimension::from_millipixels(0).to_millipixels(), 0);
    assert_eq!(QuantizedDimension::from_millipixels(49).to_millipixels(), 0);
    assert_eq!(QuantizedDimension::from_millipixels(50).to_millipixels(), 100);
    assert_eq!(QuantizedDimension::from_millipixels(149).to_millipixels(), 100);
    assert_eq!(QuantizedDimension::from_millipixels(1049).to_millipixels(), 1000);
    assert_eq!(QuantizedDimension::from_millipixels(1050).to_millipixels(), 1100);
    assert_eq!(QuantizedDimension::from_millipixels(-49).to_millipixels(), 0);
    assert_eq!(QuantizedDimension::from_millipixels(-50).to_millipixels(), -100);
    assert_eq!(QuantizedDimension::from_millipixels(-1050).to_millipixels(), -1100);
}

#[test]
fn rounding_to_pixels_is_nearest_half_away_from_zero() {
    assert_eq!(round_to_pixels(0), 0);
    assert_eq!(round_to_pixels(499), 0);
    assert_eq!(round_to_pixels(500), 1);
    assert_eq!(round_to_pixels(1499), 1);
    assert_eq!(round_to_pixels(1500), 2);
    assert_eq!(round_to_pixels(-499), 0);
    assert_eq!(round_to_pixels(-500), -1);
    assert_eq!(round_to_pixels(-1500), -2);
}

#[test]
fn subpixel_offset_stays_within_half_a_pixel() {
    assert_eq!(subpixel_offset_millipixels(2499), 499);
    assert_eq!(subpixel_offset_millipixels(2500), -500);
    assert_eq!(subpixel_offset_millipixels(2000), 0);
    assert_eq!(subpixel_offset_millipixels(-2499), -499);
    assert_eq!(subpixel_offset_millipixels(-2500), 500);
    for m in [-10_500, -777, -1, 0, 1, 333, 9_999, 1_234_567] {
        let s = subpixel_offset_millipixels(m);
        assert!((-500..=500).contains(&s));
    }
}
