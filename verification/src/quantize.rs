//! Fixed-point quantization of continuous pixel quantities.
//!
//! Cache keys must collapse nearly identical scales and subpixel offsets onto
//! one bucket, or floating-point jitter in layout positions would explode the
//! key space. A continuous pixel quantity is handed to this module in
//! millipixels (thousandths of a pixel); quantization keeps tenths of a pixel,
//! rounding to the nearest bucket, halves away from zero. The error introduced
//! is at most half a bucket, 0.05 px, which is visually imperceptible.

use vstd::prelude::*;

verus! {

/// Largest magnitude of a millipixel quantity accepted by the quantizer:
/// two million pixels, comfortably above any real screen coordinate while
/// keeping every intermediate sum inside `i32`.
pub const MAX_MILLIPIXELS: i32 = 2_000_000_000;

/// `round(m / 100)` with halves rounded away from zero: the bucket index of a
/// millipixel quantity, in tenths of a pixel.
pub open spec fn spec_quantize(m: int) -> int {
    if m >= 0 {
        (m + 50) / 100
    } else {
        -((-m + 50) / 100)
    }
}

/// A continuous pixel quantity on a 0.1-pixel grid.
#[derive(Clone, Copy, Debug, Hash, PartialEq, Eq, Structural)]
pub struct QuantizedDimension {
    /// The number of pixels, multiplied by 10.
    inner_value: i32,
}

impl QuantizedDimension {
    /// The number of tenths of a pixel this value stands for.
    pub closed spec fn tenths(self) -> int {
        self.inner_value as int
    }

    /// The quantized value standing for `t` tenths of a pixel.
    pub closed spec fn from_tenths_spec(t: int) -> QuantizedDimension {
        QuantizedDimension { inner_value: t as i32 }
    }

    /// Every value built by `from_millipixels` stays in this range, which
    /// keeps `to_millipixels` free of overflow.
    pub open spec fn wf(self) -> bool {
        -20_000_001 <= self.tenths() <= 20_000_001
    }

    /// Quantize a quantity given in millipixels to the nearest tenth of a
    /// pixel, halves away from zero.
    pub fn from_millipixels(millipixels: i32) -> (r: QuantizedDimension)
        requires
            -MAX_MILLIPIXELS <= millipixels <= MAX_MILLIPIXELS,
        ensures
            r.tenths() == spec_quantize(millipixels as int),
            r == QuantizedDimension::from_tenths_spec(spec_quantize(millipixels as int)),
            r.wf(),
    {
        if millipixels >= 0 {
            let v: u32 = ((millipixels as u32) + 50) / 100;
            QuantizedDimension { inner_value: v as i32 }
        } else {
            let neg: i32 = -millipixels;
            let v: u32 = ((neg as u32) + 50) / 100;
            QuantizedDimension { inner_value: -(v as i32) }
        }
    }

    /// The exact millipixel value at the centre of this bucket.
    pub fn to_millipixels(self) -> (r: i32)
        requires
            self.wf(),
        ensures
            r == 100 * self.tenths(),
    {
        self.inner_value * 100
    }
}

/// `round(m / 1000)` with halves rounded away from zero: the whole-pixel
/// value nearest to a millipixel quantity.
pub open spec fn spec_round_to_pixels(m: int) -> int {
    if m >= 0 {
        (m + 500) / 1000
    } else {
        -((-m + 500) / 1000)
    }
}

/// The fractional part of a millipixel position relative to the nearest
/// whole pixel, in millipixels.
pub open spec fn spec_subpixel_offset(m: int) -> int {
    m - 1000 * spec_round_to_pixels(m)
}

/// Round a millipixel quantity to the nearest whole pixel, halves away from
/// zero.
pub fn round_to_pixels(millipixels: i32) -> (r: i32)
    requires
        -MAX_MILLIPIXELS <= millipixels <= MAX_MILLIPIXELS,
    ensures
        r == spec_round_to_pixels(millipixels as int),
        -2_000_001 <= r <= 2_000_001,
{
    if millipixels >= 0 {
        let v: u32 = ((millipixels as u32) + 500) / 1000;
        v as i32
    } else {
        let neg: i32 = -millipixels;
        let v: u32 = ((neg as u32) + 500) / 1000;
        -(v as i32)
    }
}

/// A subpixel offset lies within half a pixel of zero.
pub proof fn lemma_subpixel_offset_bounds(m: int)
    requires
        -MAX_MILLIPIXELS <= m <= MAX_MILLIPIXELS,
    ensures
        -500 <= spec_subpixel_offset(m) <= 500,
{
    if m >= 0 {
        let q = (m + 500) / 1000;
        assert(1000 * q == m + 500 - ((m + 500) % 1000)) by {
            vstd::arithmetic::div_mod::lemma_fundamental_div_mod(m + 500, 1000);
        }
    } else {
        let q = (-m + 500) / 1000;
        assert(1000 * q == -m + 500 - ((-m + 500) % 1000)) by {
            vstd::arithmetic::div_mod::lemma_fundamental_div_mod(-m + 500, 1000);
        }
    }
}

/// The fractional part of a millipixel position relative to the nearest
/// whole pixel.
pub fn subpixel_offset_millipixels(millipixels: i32) -> (r: i32)
    requires
        -MAX_MILLIPIXELS <= millipixels <= MAX_MILLIPIXELS,
    ensures
        r == spec_subpixel_offset(millipixels as int),
        -500 <= r <= 500,
{
    let px: i32 = round_to_pixels(millipixels);
    proof {
        lemma_subpixel_offset_bounds(millipixels as int);
    }
    millipixels - px * 1000
}

/// Quantizing and mapping back to pixels moves a quantity by at most half a
/// bucket: 50 millipixels, that is 0.05 px.
pub proof fn lemma_quantize_round_trip(m: int)
    requires
        -MAX_MILLIPIXELS <= m <= MAX_MILLIPIXELS,
    ensures
        -50 <= 100 * spec_quantize(m) - m <= 50,
{
    if m >= 0 {
        let q = (m + 50) / 100;
        assert(100 * q == m + 50 - ((m + 50) % 100)) by {
            vstd::arithmetic::div_mod::lemma_fundamental_div_mod(m + 50, 100);
        }
    } else {
        let q = (-m + 50) / 100;
        assert(100 * q == -m + 50 - ((-m + 50) % 100)) by {
            vstd::arithmetic::div_mod::lemma_fundamental_div_mod(-m + 50, 100);
        }
    }
}

/// Two quantities lying within 0.049 px of the same 0.1-px grid point `k`
/// quantize to the same bucket, namely `k` itself. This is how two draw
/// requests whose subpixel offsets differ by strictly less than one bucket
/// width around a common grid point come to share one cache key. (Quantities
/// on opposite sides of a bucket boundary, such as 49 and 50 millipixels, land
/// in different buckets however close they are.)
pub proof fn lemma_nearby_values_quantize_alike(m1: int, m2: int, k: int)
    requires
        -49 <= m1 - 100 * k <= 49,
        -49 <= m2 - 100 * k <= 49,
        -20_000_000 <= k <= 20_000_000,
    ensures
        spec_quantize(m1) == k,
        spec_quantize(m2) == k,
{
    lemma_quantize_hits_grid(m1, k);
    lemma_quantize_hits_grid(m2, k);
}

/// A quantity within 0.049 px of the grid point `k` quantizes to `k`.
proof fn lemma_quantize_hits_grid(m: int, k: int)
    requires
        -49 <= m - 100 * k <= 49,
        -20_000_000 <= k <= 20_000_000,
    ensures
        spec_quantize(m) == k,
{
    let d = m - 100 * k;
    if k > 0 {
        assert(m >= 0);
        assert((m + 50) / 100 == k) by {
            assert(m + 50 == 100 * k + (d + 50));
            assert(0 <= d + 50 < 100);
            vstd::arithmetic::div_mod::lemma_fundamental_div_mod_converse(
                m + 50,
                100,
                k,
                d + 50,
            );
        }
    } else if k < 0 {
        assert(m < 0);
        assert((-m + 50) / 100 == -k) by {
            assert(-m + 50 == 100 * (-k) + (50 - d));
            assert(0 <= 50 - d < 100);
            vstd::arithmetic::div_mod::lemma_fundamental_div_mod_converse(
                -m + 50,
                100,
                -k,
                50 - d,
            );
        }
    } else {
        if m >= 0 {
            assert((m + 50) / 100 == 0) by {
                assert(0 <= m + 50 < 100);
                vstd::arithmetic::div_mod::lemma_fundamental_div_mod_converse(m + 50, 100, 0, m + 50);
            }
        } else {
            assert((-m + 50) / 100 == 0) by {
                assert(0 <= -m + 50 < 100);
                vstd::arithmetic::div_mod::lemma_fundamental_div_mod_converse(
                    -m + 50,
                    100,
                    0,
                    -m + 50,
                );
            }
        }
    }
}

} // verus!
