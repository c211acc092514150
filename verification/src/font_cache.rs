//! The glyph cache: cache keys, atlas textures, and the cache orchestration
//! of lookup, insertion, eviction and draw-primitive emission.
//!
//! Continuous quantities reach the cache in millipixels (thousandths of a
//! pixel) and are quantized onto a coarse grid for the cache key; positions
//! handed back in draw primitives are whole pixels, texture coordinates are
//! atlas pixels out of `CACHE_TEXTURE_SIZE`.

use vstd::prelude::*;

use crate::bitmap::byte_count;
use crate::bitmap::byte_index;
use crate::bitmap::BitmapRGBA;
use crate::dimen::IRect;
use crate::dimen::IVec2;
use crate::dimen::URect;
use crate::dimen::UVec2;
use crate::glyph::GlyphId;
use crate::quantize::spec_quantize;
use crate::quantize::spec_subpixel_offset;
use crate::quantize::subpixel_offset_millipixels;
use crate::quantize::QuantizedDimension;
use crate::quantize::MAX_MILLIPIXELS;
use crate::dimen::lemma_contained_in_disjoint;
use crate::dimen::lemma_disjoint_no_common_pixel;
use crate::texture_packer::best_region_from;
use crate::texture_packer::lemma_best_region_fits;
use crate::texture_packer::region_fits;
use crate::texture_packer::spec_best_region;
use crate::texture_packer::spec_placement;
use crate::texture_packer::spec_space_right;
use crate::texture_packer::spec_space_underneath;
use crate::texture_packer::spec_split_regions;
use crate::texture_packer::spec_try_allocate;
use crate::texture_packer::TexturePacker;
use crate::texture_packer::TexturePackerError;

verus! {

/// The width and height, in pixels, of every atlas texture.
pub const CACHE_TEXTURE_SIZE: u32 = 1024;

/// The quantized identity of one rasterized glyph appearance.
#[derive(Debug, Hash, Eq, PartialEq, Clone, Copy, Structural)]
pub struct GlyphCacheKey {
    pub font_id: usize,
    /// Quantized horizontal subpixel offset, between -0.5 and 0.5 pixels.
    pub subpixel_offset_x: QuantizedDimension,
    /// Quantized vertical subpixel offset, between -0.5 and 0.5 pixels.
    pub subpixel_offset_y: QuantizedDimension,
    pub scale: QuantizedDimension,
    pub glyph_id: GlyphId,
}

/// The key computed for a glyph of `font_id`/`glyph_id` drawn at the given
/// uniform scale and screen position, both in millipixels.
pub open spec fn spec_key_from(
    font_id: usize,
    glyph_id: GlyphId,
    scale_millipixels: int,
    position_x_millipixels: int,
    position_y_millipixels: int,
) -> GlyphCacheKey {
    let sx = spec_quantize(spec_subpixel_offset(position_x_millipixels));
    let sy = spec_quantize(spec_subpixel_offset(position_y_millipixels));
    let sc = spec_quantize(scale_millipixels);
    GlyphCacheKey {
        font_id,
        subpixel_offset_x: QuantizedDimension::from_tenths_spec(sx),
        subpixel_offset_y: QuantizedDimension::from_tenths_spec(sy),
        scale: QuantizedDimension::from_tenths_spec(sc),
        glyph_id,
    }
}

impl GlyphCacheKey {
    pub open spec fn wf(self) -> bool {
        self.subpixel_offset_x.wf() && self.subpixel_offset_y.wf() && self.scale.wf()
    }

    /// Compute the cache key for a glyph drawn at a screen position: the
    /// uniform scale and the subpixel part of the position are quantized, so
    /// that nearly identical draw requests collapse onto one key.
    pub fn from_position(
        font_id: usize,
        glyph_id: GlyphId,
        scale_millipixels: i32,
        position_x_millipixels: i32,
        position_y_millipixels: i32,
    ) -> (r: GlyphCacheKey)
        requires
            -MAX_MILLIPIXELS <= scale_millipixels <= MAX_MILLIPIXELS,
            -MAX_MILLIPIXELS <= position_x_millipixels <= MAX_MILLIPIXELS,
            -MAX_MILLIPIXELS <= position_y_millipixels <= MAX_MILLIPIXELS,
        ensures
            r == spec_key_from(
                font_id,
                glyph_id,
                scale_millipixels as int,
                position_x_millipixels as int,
                position_y_millipixels as int,
            ),
            r.wf(),
    {
        let scale = QuantizedDimension::from_millipixels(scale_millipixels);
        let sub_x = QuantizedDimension::from_millipixels(
            subpixel_offset_millipixels(position_x_millipixels),
        );
        let sub_y = QuantizedDimension::from_millipixels(
            subpixel_offset_millipixels(position_y_millipixels),
        );
        GlyphCacheKey {
            font_id,
            subpixel_offset_x: sub_x,
            subpixel_offset_y: sub_y,
            scale,
            glyph_id,
        }
    }
}

/// Two draw requests for the same font, glyph and scale whose subpixel
/// offsets both lie strictly within half a quantization bucket (0.049 px) of
/// a common grid point produce the same cache key, and therefore share one
/// rasterization and one atlas placement. (Offsets on opposite sides of a
/// bucket boundary give different keys however little they differ.)
pub proof fn lemma_close_draw_requests_share_key(
    font_id: usize,
    glyph_id: GlyphId,
    scale_millipixels: int,
    p1x: int,
    p1y: int,
    p2x: int,
    p2y: int,
    kx: int,
    ky: int,
)
    requires
        -MAX_MILLIPIXELS <= p1x <= MAX_MILLIPIXELS,
        -MAX_MILLIPIXELS <= p1y <= MAX_MILLIPIXELS,
        -MAX_MILLIPIXELS <= p2x <= MAX_MILLIPIXELS,
        -MAX_MILLIPIXELS <= p2y <= MAX_MILLIPIXELS,
        -5 <= kx <= 5,
        -5 <= ky <= 5,
        -49 <= spec_subpixel_offset(p1x) - 100 * kx <= 49,
        -49 <= spec_subpixel_offset(p2x) - 100 * kx <= 49,
        -49 <= spec_subpixel_offset(p1y) - 100 * ky <= 49,
        -49 <= spec_subpixel_offset(p2y) - 100 * ky <= 49,
    ensures
        spec_key_from(font_id, glyph_id, scale_millipixels, p1x, p1y) == spec_key_from(
            font_id,
            glyph_id,
            scale_millipixels,
            p2x,
            p2y,
        ),
{
    crate::quantize::lemma_nearby_values_quantize_alike(
        spec_subpixel_offset(p1x),
        spec_subpixel_offset(p2x),
        kx,
    );
    crate::quantize::lemma_nearby_values_quantize_alike(
        spec_subpixel_offset(p1y),
        spec_subpixel_offset(p2y),
        ky,
    );
}

/// The keys of an association list are pairwise distinct.
pub open spec fn unique_keys<V>(s: Seq<(GlyphCacheKey, V)>) -> bool {
    forall|i: int, j: int|
        0 <= i < j < s.len() ==> (#[trigger] s[i]).0 != (#[trigger] s[j]).0
}

/// Some pair of the association list carries this key.
pub open spec fn assoc_has<V>(s: Seq<(GlyphCacheKey, V)>, k: GlyphCacheKey) -> bool {
    exists|i: int| 0 <= i < s.len() && (#[trigger] s[i]).0 == k
}

/// The value the association list carries for this key.
pub open spec fn assoc_at<V>(s: Seq<(GlyphCacheKey, V)>, k: GlyphCacheKey) -> V
    recommends
        assoc_has(s, k),
{
    s[choose|i: int| 0 <= i < s.len() && (#[trigger] s[i]).0 == k].1
}

/// With unique keys, the value at any index carrying `k` is the value the
/// list carries for `k`.
pub proof fn lemma_assoc_at_index<V>(s: Seq<(GlyphCacheKey, V)>, k: GlyphCacheKey, i: int)
    requires
        unique_keys(s),
        0 <= i < s.len(),
        s[i].0 == k,
    ensures
        assoc_has(s, k),
        assoc_at(s, k) == s[i].1,
{
    assert(assoc_has(s, k));
    let j = choose|j: int| 0 <= j < s.len() && (#[trigger] s[j]).0 == k;
    if i != j {
        assert(s[i].0 != s[j].0);
    }
}

/// Appending a pair with a fresh key keeps the keys unique, carries the new
/// pair's value for its key, and leaves every other key's value alone.
pub proof fn lemma_assoc_push<V>(pre: Seq<(GlyphCacheKey, V)>, kv: (GlyphCacheKey, V))
    requires
        unique_keys(pre),
        !assoc_has(pre, kv.0),
    ensures
        unique_keys(pre.push(kv)),
        assoc_has(pre.push(kv), kv.0),
        assoc_at(pre.push(kv), kv.0) == kv.1,
        forall|k: GlyphCacheKey|
            k != kv.0 ==> #[trigger] assoc_has(pre.push(kv), k) == assoc_has(pre, k),
        forall|k: GlyphCacheKey|
            k != kv.0 && assoc_has(pre, k) ==> #[trigger] assoc_at(pre.push(kv), k) == assoc_at(
                pre,
                k,
            ),
{
    let cur = pre.push(kv);
    assert forall|l: int| 0 <= l < pre.len() implies (#[trigger] pre[l]).0 != kv.0 by {}
    assert forall|a: int, b: int| 0 <= a < b < cur.len() implies (#[trigger] cur[a]).0
        != (#[trigger] cur[b]).0 by {
        if b < pre.len() {
            assert(pre[a].0 != pre[b].0);
        } else {
            assert(pre[a].0 != kv.0);
        }
    }
    lemma_assoc_at_index(cur, kv.0, pre.len() as int);
    assert forall|k: GlyphCacheKey| k != kv.0 implies #[trigger] assoc_has(cur, k) == assoc_has(
        pre,
        k,
    ) by {
        if assoc_has(pre, k) {
            let j = choose|j: int| 0 <= j < pre.len() && (#[trigger] pre[j]).0 == k;
            assert(cur[j].0 == k);
        }
        if assoc_has(cur, k) {
            let j = choose|j: int| 0 <= j < cur.len() && (#[trigger] cur[j]).0 == k;
            assert(pre[j].0 == k);
        }
    }
    assert forall|k: GlyphCacheKey| k != kv.0 && assoc_has(pre, k) implies #[trigger] assoc_at(
        cur,
        k,
    ) == assoc_at(pre, k) by {
        let j = choose|j: int| 0 <= j < pre.len() && (#[trigger] pre[j]).0 == k;
        assert(cur[j].0 == k);
        lemma_assoc_at_index(cur, k, j);
        lemma_assoc_at_index(pre, k, j);
    }
}

/// Removing the pair at one index keeps the keys unique, drops exactly that
/// pair's key, and leaves every other key's value alone.
pub proof fn lemma_assoc_remove<V>(s: Seq<(GlyphCacheKey, V)>, i: int)
    requires
        unique_keys(s),
        0 <= i < s.len(),
    ensures
        unique_keys(s.remove(i)),
        !assoc_has(s.remove(i), s[i].0),
        forall|k: GlyphCacheKey|
            k != s[i].0 ==> #[trigger] assoc_has(s.remove(i), k) == assoc_has(s, k),
        forall|k: GlyphCacheKey|
            k != s[i].0 && assoc_has(s, k) ==> #[trigger] assoc_at(s.remove(i), k) == assoc_at(
                s,
                k,
            ),
{
    let cur = s.remove(i);
    assert forall|a: int, b: int| 0 <= a < b < cur.len() implies (#[trigger] cur[a]).0
        != (#[trigger] cur[b]).0 by {
        let a2 = if a < i {
            a
        } else {
            a + 1
        };
        let b2 = if b < i {
            b
        } else {
            b + 1
        };
        assert(s[a2].0 != s[b2].0);
    }
    assert forall|j: int| 0 <= j < cur.len() implies (#[trigger] cur[j]).0 != s[i].0 by {
        let j2 = if j < i {
            j
        } else {
            j + 1
        };
        if j2 < i {
            assert(s[j2].0 != s[i].0);
        } else {
            assert(s[i].0 != s[j2].0);
        }
    }
    assert forall|k: GlyphCacheKey| k != s[i].0 implies #[trigger] assoc_has(cur, k) == assoc_has(
        s,
        k,
    ) by {
        if assoc_has(s, k) {
            let j = choose|j: int| 0 <= j < s.len() && (#[trigger] s[j]).0 == k;
            let j2 = if j < i {
                j
            } else {
                j - 1
            };
            assert(cur[j2].0 == k);
        }
        if assoc_has(cur, k) {
            let j = choose|j: int| 0 <= j < cur.len() && (#[trigger] cur[j]).0 == k;
            let j2 = if j < i {
                j
            } else {
                j + 1
            };
            assert(s[j2].0 == k);
        }
    }
    assert forall|k: GlyphCacheKey| k != s[i].0 && assoc_has(s, k) implies #[trigger] assoc_at(
        cur,
        k,
    ) == assoc_at(s, k) by {
        let j = choose|j: int| 0 <= j < s.len() && (#[trigger] s[j]).0 == k;
        let j2 = if j < i {
            j
        } else {
            j - 1
        };
        assert(cur[j2].0 == k);
        lemma_assoc_at_index(cur, k, j2);
        lemma_assoc_at_index(s, k, j);
    }
}

/// Two entry lists with pointwise equal keys, bitmaps and offsets carry the
/// same keys, and the same bitmap and offset for every key.
proof fn lemma_entries_pointwise_preserved(
    s1: Seq<(GlyphCacheKey, GlyphCacheEntry)>,
    s2: Seq<(GlyphCacheKey, GlyphCacheEntry)>,
)
    requires
        unique_keys(s1),
        s1.len() == s2.len(),
        forall|l: int|
            0 <= l < s1.len() ==> (#[trigger] s2[l]).0 == s1[l].0 && s2[l].1.bitmap()
                == s1[l].1.bitmap() && s2[l].1.offset() == s1[l].1.offset(),
    ensures
        unique_keys(s2),
        forall|k: GlyphCacheKey| #[trigger] assoc_has(s2, k) == assoc_has(s1, k),
        forall|k: GlyphCacheKey|
            assoc_has(s1, k) ==> #[trigger] assoc_at(s2, k).bitmap() == assoc_at(s1, k).bitmap()
                && assoc_at(s2, k).offset() == assoc_at(s1, k).offset(),
{
    assert forall|a: int, b: int| 0 <= a < b < s2.len() implies (#[trigger] s2[a]).0
        != (#[trigger] s2[b]).0 by {
        assert(s1[a].0 != s1[b].0);
    }
    assert forall|k: GlyphCacheKey| #[trigger] assoc_has(s2, k) == assoc_has(s1, k) by {
        if assoc_has(s1, k) {
            let j = choose|j: int| 0 <= j < s1.len() && (#[trigger] s1[j]).0 == k;
            assert(s2[j].0 == k);
        }
        if assoc_has(s2, k) {
            let j = choose|j: int| 0 <= j < s2.len() && (#[trigger] s2[j]).0 == k;
            assert(s1[j].0 == k);
        }
    }
    assert forall|k: GlyphCacheKey| assoc_has(s1, k) implies #[trigger] assoc_at(s2, k).bitmap()
        == assoc_at(s1, k).bitmap() && assoc_at(s2, k).offset() == assoc_at(s1, k).offset() by {
        let j = choose|j: int| 0 <= j < s1.len() && (#[trigger] s1[j]).0 == k;
        assert(s2[j].0 == k);
        lemma_assoc_at_index(s1, k, j);
        lemma_assoc_at_index(s2, k, j);
    }
}

/// Find the index carrying `k`, scanning from the front.
fn assoc_find<V>(s: &Vec<(GlyphCacheKey, V)>, k: &GlyphCacheKey) -> (r: Option<usize>)
    ensures
        match r {
            None => !assoc_has(s@, *k),
            Some(i) => i < s@.len() && s@[i as int].0 == *k,
        },
{
    let n: usize = s.len();
    let mut i: usize = 0;
    while i < n
        invariant
            n == s@.len(),
            i <= n,
            forall|j: int| 0 <= j < i ==> (#[trigger] s@[j]).0 != *k,
        decreases n - i,
    {
        if s[i].0 == *k {
            return Some(i);
        }
        i = i + 1;
    }
    None
}

#[derive(Debug, Hash, PartialEq, Eq, Clone, Copy, Structural)]
pub enum GlyphCacheTextureAppendError {
    NotEnoughSpace,
}

impl From<TexturePackerError> for GlyphCacheTextureAppendError {
    fn from(value: TexturePackerError) -> (r: GlyphCacheTextureAppendError) {
        match value {
            TexturePackerError::NotEnoughSpace => GlyphCacheTextureAppendError::NotEnoughSpace,
        }
    }
}

impl vstd::std_specs::convert::FromSpecImpl<TexturePackerError> for GlyphCacheTextureAppendError {
    open spec fn obeys_from_spec() -> bool {
        true
    }

    open spec fn from_spec(value: TexturePackerError) -> GlyphCacheTextureAppendError {
        match value {
            TexturePackerError::NotEnoughSpace => GlyphCacheTextureAppendError::NotEnoughSpace,
        }
    }
}

/// A handle standing for one GPU texture object. The embedder that performs
/// the actual uploads keeps the mapping from handles to real textures.
#[derive(Debug, Hash, PartialEq, Eq, Clone, Copy, Structural)]
pub struct TextureHandle(pub u64);

/// The single free region of an atlas that holds no glyphs yet.
pub open spec fn full_free_region() -> URect {
    URect {
        top_left: UVec2 { x: 0, y: 0 },
        bottom_right: UVec2 { x: CACHE_TEXTURE_SIZE, y: CACHE_TEXTURE_SIZE },
    }
}

/// Whether a glyph bitmap of this size, its one-pixel border included, fits
/// into an empty atlas texture. A glyph that does not will never render.
pub open spec fn fits_fresh_atlas(size: UVec2) -> bool {
    size.x == 0 || size.y == 0 || (size.x + 2 <= CACHE_TEXTURE_SIZE && size.y + 2
        <= CACHE_TEXTURE_SIZE)
}

/// Allocation in an empty atlas's packer succeeds for exactly the sizes that
/// fit a fresh atlas.
proof fn lemma_fresh_alloc(regions: Seq<URect>, size: UVec2)
    requires
        regions.len() == 1,
        regions[0] == full_free_region(),
        size.x <= u32::MAX - 2,
        size.y <= u32::MAX - 2,
    ensures
        spec_try_allocate(regions, size) is Some <==> fits_fresh_atlas(size),
{
    if size.x == 0 || size.y == 0 {
    } else {
        let w = size.x + 2;
        let h = size.y + 2;
        if region_fits(regions[0], w as int, h as int) {
            assert(best_region_from(regions, w as int, h as int, 0, None) == best_region_from(
                regions,
                w as int,
                h as int,
                1,
                Some(0),
            ));
        } else {
            assert(best_region_from(regions, w as int, h as int, 0, None) == best_region_from(
                regions,
                w as int,
                h as int,
                1,
                None,
            ));
        }
    }
}

/// Where a glyph sits inside its atlas.
#[derive(Debug, Clone, Copy)]
pub struct GlyphTextureCacheEntry {
    pub texture_area: URect,
}

/// One atlas: a fixed-size square bitmap, the packer describing its free
/// space, the handle of its GPU texture, a dirty flag, and the placements of
/// the glyphs it holds.
#[derive(Debug)]
pub struct GlyphCacheTexture {
    bitmap: BitmapRGBA,
    texture: TextureHandle,
    invalidated: bool,
    packer: TexturePacker,
    entries: Vec<(GlyphCacheKey, GlyphTextureCacheEntry)>,
}

impl GlyphCacheTexture {
    /// The glyph placements, as an association list in insertion order.
    pub closed spec fn placements(self) -> Seq<(GlyphCacheKey, URect)> {
        self.entries@.map_values(|p: (GlyphCacheKey, GlyphTextureCacheEntry)| (p.0, p.1.texture_area))
    }

    pub closed spec fn spec_texture(self) -> TextureHandle {
        self.texture
    }

    pub closed spec fn spec_invalidated(self) -> bool {
        self.invalidated
    }

    /// The atlas bitmap's raw bytes.
    pub closed spec fn bitmap_bytes(self) -> Seq<u8> {
        self.bitmap.bytes()
    }

    pub closed spec fn free_regions(self) -> Seq<URect> {
        self.packer.regions()
    }

    pub open spec fn has_key(self, k: GlyphCacheKey) -> bool {
        assoc_has(self.placements(), k)
    }

    /// The atlas holds no glyphs and all of its space is free.
    pub open spec fn is_cleared(self) -> bool {
        &&& self.placements().len() == 0
        &&& self.free_regions().len() == 1
        &&& self.free_regions()[0] == full_free_region()
        &&& !self.spec_invalidated()
    }

    pub open spec fn rect_of(self, k: GlyphCacheKey) -> URect {
        assoc_at(self.placements(), k)
    }

    pub closed spec fn wf(self) -> bool {
        &&& self.bitmap.wf()
        &&& self.bitmap.spec_size() == (UVec2 { x: CACHE_TEXTURE_SIZE, y: CACHE_TEXTURE_SIZE })
        &&& self.packer.wf()
        &&& self.packer.bounded(CACHE_TEXTURE_SIZE as int, CACHE_TEXTURE_SIZE as int)
        &&& unique_keys(self.placements())
        &&& forall|i: int|
            0 <= i < self.placements().len() ==> (#[trigger] self.placements()[i]).1.wf()
                && self.placements()[i].1.bottom_right.x <= CACHE_TEXTURE_SIZE
                && self.placements()[i].1.bottom_right.y <= CACHE_TEXTURE_SIZE
        &&& forall|a: int, b: int|
            0 <= a < b < self.placements().len() ==> (#[trigger] self.placements()[a]).1.spec_disjoint(
                (#[trigger] self.placements()[b]).1,
            )
        &&& forall|r: int, p: int|
            0 <= r < self.free_regions().len() && 0 <= p < self.placements().len()
                ==> (#[trigger] self.free_regions()[r]).spec_disjoint(
                (#[trigger] self.placements()[p]).1,
            )
        &&& forall|a: int, b: int|
            0 <= a < b < self.free_regions().len()
                ==> (#[trigger] self.free_regions()[a]).spec_disjoint(
                #[trigger] self.free_regions()[b],
            )
    }

    /// A fresh, empty atlas around the given texture handle.
    pub fn new(texture: TextureHandle) -> (r: GlyphCacheTexture)
        ensures
            r.wf(),
            r.spec_texture() == texture,
            !r.spec_invalidated(),
            r.placements().len() == 0,
            r.free_regions().len() == 1,
            r.free_regions()[0] == (URect {
                top_left: UVec2 { x: 0, y: 0 },
                bottom_right: UVec2 { x: CACHE_TEXTURE_SIZE, y: CACHE_TEXTURE_SIZE },
            }),
            forall|i: int| 0 <= i < r.bitmap_bytes().len() ==> r.bitmap_bytes()[i] == 0,
            r.is_cleared(),
    {
        GlyphCacheTexture {
            bitmap: BitmapRGBA::new(UVec2::new(CACHE_TEXTURE_SIZE, CACHE_TEXTURE_SIZE)),
            texture,
            invalidated: false,
            packer: TexturePacker::new(CACHE_TEXTURE_SIZE, CACHE_TEXTURE_SIZE),
            entries: Vec::new(),
        }
    }

    /// Drop every placement, reset the packer to one full free region, zero
    /// the bitmap and clear the dirty flag. The texture handle is kept.
    pub fn clear(&mut self)
        requires
            old(self).wf(),
        ensures
            final(self).wf(),
            final(self).spec_texture() == old(self).spec_texture(),
            !final(self).spec_invalidated(),
            final(self).placements().len() == 0,
            final(self).free_regions().len() == 1,
            final(self).free_regions()[0] == (URect {
                top_left: UVec2 { x: 0, y: 0 },
                bottom_right: UVec2 { x: CACHE_TEXTURE_SIZE, y: CACHE_TEXTURE_SIZE },
            }),
            forall|i: int|
                0 <= i < final(self).bitmap_bytes().len() ==> final(self).bitmap_bytes()[i] == 0,
            final(self).is_cleared(),
    {
        self.invalidated = false;
        self.packer = TexturePacker::new(CACHE_TEXTURE_SIZE, CACHE_TEXTURE_SIZE);
        self.entries.clear();
        self.bitmap.clear();
        proof {
            assert(self.placements() =~= Seq::<(GlyphCacheKey, URect)>::empty());
        }
    }

    /// Try to place a glyph bitmap in this atlas: allocate packer space for
    /// it, blit it there, record the placement under `key` and mark the atlas
    /// dirty. On failure everything is left unchanged.
    #[verifier::rlimit(100)]
    pub fn try_append_glyph(&mut self, key: &GlyphCacheKey, glyph_bitmap: &BitmapRGBA) -> (res:
        Result<(), GlyphCacheTextureAppendError>)
        requires
            old(self).wf(),
            glyph_bitmap.wf(),
            glyph_bitmap.spec_size().x <= CACHE_TEXTURE_SIZE,
            glyph_bitmap.spec_size().y <= CACHE_TEXTURE_SIZE,
        ensures
            final(self).wf(),
            final(self).spec_texture() == old(self).spec_texture(),
            match spec_try_allocate(old(self).free_regions(), glyph_bitmap.spec_size()) {
                None => res == Err::<(), GlyphCacheTextureAppendError>(
                    GlyphCacheTextureAppendError::NotEnoughSpace,
                ) && *final(self) == *old(self),
                Some(pr) => {
                    &&& res == Ok::<(), GlyphCacheTextureAppendError>(())
                    &&& final(self).free_regions() == pr.1
                    &&& final(self).spec_invalidated()
                    &&& final(self).has_key(*key)
                    &&& final(self).rect_of(*key) == pr.0
                    &&& pr.0.wf()
                    &&& pr.0.spec_width() == glyph_bitmap.spec_size().x
                    &&& pr.0.spec_height() == glyph_bitmap.spec_size().y
                    &&& pr.0.bottom_right.x <= CACHE_TEXTURE_SIZE
                    &&& pr.0.bottom_right.y <= CACHE_TEXTURE_SIZE
                    &&& forall|k: GlyphCacheKey|
                        k != *key ==> #[trigger] final(self).has_key(k) == old(self).has_key(k)
                            && (old(self).has_key(k) ==> final(self).rect_of(k)
                            == old(self).rect_of(k))
                    &&& forall|x: int, y: int, c: int|
                        0 <= x < glyph_bitmap.spec_size().x && 0 <= y < glyph_bitmap.spec_size().y
                            && 0 <= c < 4 ==> final(self).bitmap_bytes()[#[trigger] byte_index(
                            CACHE_TEXTURE_SIZE as int,
                            pr.0.top_left.x + x,
                            pr.0.top_left.y + y,
                            c,
                        )] == glyph_bitmap.byte_at(x, y, c)
                    &&& forall|x: int, y: int, c: int|
                        0 <= x < CACHE_TEXTURE_SIZE && 0 <= y < CACHE_TEXTURE_SIZE && 0 <= c < 4
                            && !(pr.0.top_left.x <= x < pr.0.top_left.x
                            + glyph_bitmap.spec_size().x && pr.0.top_left.y <= y < pr.0.top_left.y
                            + glyph_bitmap.spec_size().y)
                            ==> final(self).bitmap_bytes()[#[trigger] byte_index(CACHE_TEXTURE_SIZE as int, x, y, c)]
                            == old(self).bitmap_bytes()[byte_index(
                            CACHE_TEXTURE_SIZE as int,
                            x,
                            y,
                            c,
                        )]
                },
            },
    {
        let size = glyph_bitmap.size();
        let texture_area = match self.packer.try_allocate(size) {
            Ok(rect) => rect,
            Err(TexturePackerError::NotEnoughSpace) => {
                return Err(GlyphCacheTextureAppendError::NotEnoughSpace);
            },
        };

        self.bitmap.draw_bitmap_at(glyph_bitmap, &texture_area.top_left);

        let entry = GlyphTextureCacheEntry { texture_area };
        let ghost pre = self.placements();
        let ghost mut idx_new: int = 0;
        match assoc_find(&self.entries, key) {
            Some(i) => {
                self.entries[i] = (*key, entry);
                proof {
                    idx_new = i as int;
                    let cur = self.placements();
                    assert(cur.len() == pre.len());
                    assert(cur[idx_new].1 == texture_area);
                    assert forall|l: int|
                        0 <= l < cur.len() && l != idx_new implies l < pre.len() && (
                    #[trigger] cur[l]) == pre[l] by {}
                    assert forall|l: int| 0 <= l < cur.len() implies (#[trigger] cur[l]).0
                        == pre[l].0 by {}
                    assert forall|a: int, b: int| 0 <= a < b < cur.len() implies (#[trigger] cur[a]).0
                        != (#[trigger] cur[b]).0 by {
                        assert(pre[a].0 != pre[b].0);
                    }
                    lemma_assoc_at_index(self.placements(), *key, i as int);
                    assert forall|k: GlyphCacheKey| k != *key implies #[trigger] assoc_has(
                        self.placements(),
                        k,
                    ) == assoc_has(pre, k) && (assoc_has(pre, k) ==> assoc_at(self.placements(), k)
                        == assoc_at(pre, k)) by {
                        if assoc_has(pre, k) {
                            let j = choose|j: int|
                                0 <= j < pre.len() && (#[trigger] pre[j]).0 == k;
                            assert(self.placements()[j].0 == k);
                            lemma_assoc_at_index(self.placements(), k, j);
                            lemma_assoc_at_index(pre, k, j);
                        }
                        if assoc_has(self.placements(), k) {
                            let j = choose|j: int|
                                0 <= j < self.placements().len() && (#[trigger] self.placements()[j]).0
                                    == k;
                            assert(pre[j].0 == k);
                        }
                    }
                }
            },
            None => {
                self.entries.push((*key, entry));
                proof {
                    idx_new = pre.len() as int;
                    let cur = self.placements();
                    assert(cur.len() == pre.len() + 1);
                    assert(cur[idx_new].1 == texture_area);
                    assert forall|l: int|
                        0 <= l < cur.len() && l != idx_new implies l < pre.len() && (
                    #[trigger] cur[l]) == pre[l] by {}
                    assert forall|l: int| 0 <= l < pre.len() implies (#[trigger] cur[l]) == pre[l]
                        by {}
                    assert(cur[pre.len() as int].0 == *key);
                    assert forall|l: int| 0 <= l < pre.len() implies (#[trigger] pre[l]).0 != *key
                        by {
                        assert(old(self).entries@[l].0 == pre[l].0);
                    }
                    assert forall|a: int, b: int| 0 <= a < b < cur.len() implies (#[trigger] cur[a]).0
                        != (#[trigger] cur[b]).0 by {
                        if b < pre.len() {
                            assert(pre[a].0 != pre[b].0);
                        } else {
                            assert(pre[a].0 != *key);
                        }
                    }
                    lemma_assoc_at_index(self.placements(), *key, self.placements().len() - 1);
                    assert forall|k: GlyphCacheKey| k != *key implies #[trigger] assoc_has(
                        self.placements(),
                        k,
                    ) == assoc_has(pre, k) && (assoc_has(pre, k) ==> assoc_at(self.placements(), k)
                        == assoc_at(pre, k)) by {
                        if assoc_has(pre, k) {
                            let j = choose|j: int|
                                0 <= j < pre.len() && (#[trigger] pre[j]).0 == k;
                            assert(self.placements()[j].0 == k);
                            lemma_assoc_at_index(self.placements(), k, j);
                            lemma_assoc_at_index(pre, k, j);
                        }
                        if assoc_has(self.placements(), k) {
                            let j = choose|j: int|
                                0 <= j < self.placements().len() && (#[trigger] self.placements()[j]).0
                                    == k;
                            assert(pre[j].0 == k);
                        }
                    }
                }
            },
        }

        self.invalidated = true;

        proof {
            // The new placement sits inside the chosen free region, so it
            // overlaps no older placement; the split leftovers stay inside
            // that region and clear of the allocation, so the free regions
            // stay disjoint from each other and from every placement.
            let cur = self.placements();
            let pre_free = old(self).free_regions();
            let new_free = self.free_regions();
            let p_new = texture_area;
            if size.x == 0 || size.y == 0 {
                assert(p_new.spec_is_zero_area());
                assert(new_free == pre_free);
                assert forall|a: int, b: int| 0 <= a < b < cur.len() implies (#[trigger] cur[a]).1.spec_disjoint(
                    (#[trigger] cur[b]).1,
                ) by {
                    if a != idx_new && b != idx_new {
                        assert(cur[a] == pre[a] && cur[b] == pre[b]);
                        assert(pre[a].1.spec_disjoint(pre[b].1));
                    }
                }
                assert forall|r: int, p: int|
                    0 <= r < new_free.len() && 0 <= p < cur.len() implies (#[trigger] new_free[r]).spec_disjoint(
                    (#[trigger] cur[p]).1,
                ) by {
                    if p != idx_new {
                        assert(cur[p] == pre[p]);
                        assert(pre_free[r].spec_disjoint(pre[p].1));
                    }
                }
            } else {
                let w = size.x + 2;
                let h = size.y + 2;
                lemma_best_region_fits(pre_free, w as int, h as int);
                let bio = spec_best_region(pre_free, w as int, h as int);
                let bi = match bio {
                    Some(i) => i,
                    None => 0,
                };
                assert(bio == Some(bi));
                let region = pre_free[bi];
                assert(region.wf() && region_fits(region, w as int, h as int));
                let inflated = URect {
                    top_left: region.top_left,
                    bottom_right: UVec2 {
                        x: (region.top_left.x + w) as u32,
                        y: (region.top_left.y + h) as u32,
                    },
                };
                let right = spec_space_right(region, size);
                let under = spec_space_underneath(region, size);
                assert(p_new == spec_placement(region, size));
                assert(new_free == spec_split_regions(pre_free, bi, size));
                assert(p_new.spec_contained_in(inflated));
                assert(inflated.spec_contained_in(region));
                assert(p_new.spec_contained_in(region));
                assert(right.spec_contained_in(region));
                assert(under.spec_contained_in(region));
                assert(right.spec_disjoint(inflated));
                assert(under.spec_disjoint(inflated));
                assert(right.spec_disjoint(under));
                assert forall|a: int, b: int| 0 <= a < b < cur.len() implies (#[trigger] cur[a]).1.spec_disjoint(
                    (#[trigger] cur[b]).1,
                ) by {
                    if a == idx_new {
                        assert(cur[b] == pre[b]);
                        assert(pre_free[bi].spec_disjoint(pre[b].1));
                        lemma_contained_in_disjoint(p_new, region, pre[b].1);
                    } else if b == idx_new {
                        assert(cur[a] == pre[a]);
                        assert(pre_free[bi].spec_disjoint(pre[a].1));
                        lemma_contained_in_disjoint(p_new, region, pre[a].1);
                    } else {
                        assert(cur[a] == pre[a] && cur[b] == pre[b]);
                        assert(pre[a].1.spec_disjoint(pre[b].1));
                    }
                }
                assert forall|r: int, p: int|
                    0 <= r < new_free.len() && 0 <= p < cur.len() implies (#[trigger] new_free[r]).spec_disjoint(
                    (#[trigger] cur[p]).1,
                ) by {
                    let f = new_free[r];
                    if p == idx_new {
                        if r == bi || r >= pre_free.len() {
                            assert(f == right || f == under);
                            lemma_contained_in_disjoint(p_new, inflated, f);
                        } else {
                            assert(f == pre_free[r]);
                            if r < bi {
                                assert(pre_free[r].spec_disjoint(pre_free[bi]));
                            } else {
                                assert(pre_free[bi].spec_disjoint(pre_free[r]));
                            }
                            lemma_contained_in_disjoint(p_new, region, f);
                        }
                    } else {
                        assert(cur[p] == pre[p]);
                        if r == bi || r >= pre_free.len() {
                            assert(f == right || f == under);
                            assert(pre_free[bi].spec_disjoint(pre[p].1));
                            lemma_contained_in_disjoint(f, region, pre[p].1);
                        } else {
                            assert(f == pre_free[r]);
                            assert(pre_free[r].spec_disjoint(pre[p].1));
                        }
                    }
                }
                assert forall|a: int, b: int|
                    0 <= a < b < new_free.len() implies (#[trigger] new_free[a]).spec_disjoint(
                    #[trigger] new_free[b],
                ) by {
                    let fa = new_free[a];
                    let fb = new_free[b];
                    let a_split = a == bi || a >= pre_free.len();
                    let b_split = b == bi || b >= pre_free.len();
                    if a_split && b_split {
                        assert(fa == right && fb == under);
                    } else if a_split {
                        assert(fa == right || fa == under);
                        assert(fb == pre_free[b]);
                        if b < bi {
                            assert(pre_free[b].spec_disjoint(pre_free[bi]));
                        } else {
                            assert(pre_free[bi].spec_disjoint(pre_free[b]));
                        }
                        lemma_contained_in_disjoint(fa, region, fb);
                    } else if b_split {
                        assert(fb == right || fb == under);
                        assert(fa == pre_free[a]);
                        if a < bi {
                            assert(pre_free[a].spec_disjoint(pre_free[bi]));
                        } else {
                            assert(pre_free[bi].spec_disjoint(pre_free[a]));
                        }
                        lemma_contained_in_disjoint(fb, region, fa);
                    } else {
                        assert(fa == pre_free[a] && fb == pre_free[b]);
                        assert(pre_free[a].spec_disjoint(pre_free[b]));
                    }
                }
            }
        }

        Ok(())
    }

    /// Report and reset the dirty flag: the caller uploads the bitmap to the
    /// GPU texture whenever this returns true, so each atlas is uploaded at
    /// most once per frame however many glyphs were appended.
    pub fn revalidate(&mut self) -> (needs_upload: bool)
        requires
            old(self).wf(),
        ensures
            final(self).wf(),
            needs_upload == old(self).spec_invalidated(),
            !final(self).spec_invalidated(),
            final(self).spec_texture() == old(self).spec_texture(),
            final(self).placements() == old(self).placements(),
            final(self).bitmap_bytes() == old(self).bitmap_bytes(),
            final(self).free_regions() == old(self).free_regions(),
    {
        let was = self.invalidated;
        self.invalidated = false;
        proof {
            assert forall|r: int, p: int|
                0 <= r < self.free_regions().len() && 0 <= p < self.placements().len() implies (
            #[trigger] self.free_regions()[r]).spec_disjoint((#[trigger] self.placements()[p]).1)
            by {
                assert(old(self).free_regions()[r].spec_disjoint(old(self).placements()[p].1));
            }
            assert forall|a: int, b: int|
                0 <= a < b < self.free_regions().len() implies (#[trigger] self.free_regions()[a]).spec_disjoint(
                #[trigger] self.free_regions()[b],
            ) by {
                assert(old(self).free_regions()[a].spec_disjoint(old(self).free_regions()[b]));
            }
        }
        was
    }

    /// The handle of this atlas's GPU texture.
    pub fn texture(&self) -> (r: TextureHandle)
        ensures
            r == self.spec_texture(),
    {
        self.texture
    }

    /// The atlas bitmap, for uploading to the GPU.
    pub fn bitmap(&self) -> (r: &BitmapRGBA)
        requires
            self.wf(),
        ensures
            r.bytes() == self.bitmap_bytes(),
            r.spec_size() == (UVec2 { x: CACHE_TEXTURE_SIZE, y: CACHE_TEXTURE_SIZE }),
    {
        &self.bitmap
    }

    /// The placement recorded for a key, if the atlas holds it.
    pub fn lookup(&self, key: &GlyphCacheKey) -> (r: Option<URect>)
        requires
            self.wf(),
        ensures
            match r {
                None => !self.has_key(*key),
                Some(rect) => self.has_key(*key) && rect == self.rect_of(*key) && rect.wf()
                    && rect.bottom_right.x <= CACHE_TEXTURE_SIZE && rect.bottom_right.y
                    <= CACHE_TEXTURE_SIZE,
            },
    {
        match assoc_find(&self.entries, key) {
            None => {
                proof {
                    if assoc_has(self.placements(), *key) {
                        let j = choose|j: int|
                            0 <= j < self.placements().len() && (#[trigger] self.placements()[j]).0
                                == *key;
                        assert(self.entries@[j].0 == *key);
                    }
                }
                None
            },
            Some(i) => {
                let rect = self.entries[i].1.texture_area;
                proof {
                    assert(self.placements()[i as int].0 == *key);
                    lemma_assoc_at_index(self.placements(), *key, i as int);
                }
                Some(rect)
            },
        }
    }
}

/// Largest magnitude accepted for a glyph's bounding-box offset, in pixels:
/// far beyond any real layout while keeping screen-rectangle arithmetic
/// inside `i32`.
pub const MAX_BOUNDING_BOX_OFFSET: i32 = 1_048_576;

/// What a rasterizer produced for one glyph appearance: the pixel size of its
/// bounding box, one coverage byte per pixel in row-major order, and the
/// offset of the box's top-left corner from the glyph's origin.
pub struct RasterizedGlyph {
    pub size: UVec2,
    pub coverage: Vec<u8>,
    pub bounding_box_offset: IVec2,
}

impl RasterizedGlyph {
    pub open spec fn wf(self) -> bool {
        &&& self.coverage@.len() == self.size.x * self.size.y
        &&& -MAX_BOUNDING_BOX_OFFSET <= self.bounding_box_offset.x <= MAX_BOUNDING_BOX_OFFSET
        &&& -MAX_BOUNDING_BOX_OFFSET <= self.bounding_box_offset.y <= MAX_BOUNDING_BOX_OFFSET
    }
}

/// One cached rasterization: the glyph's bitmap, the integer pixel offset
/// from the glyph's origin to the bitmap's top-left corner, and the index of
/// the atlas it currently sits in (`None` while not yet placed). Never
/// mutated after creation except for the atlas index.
#[derive(Debug)]
pub struct GlyphCacheEntry {
    glyph_bitmap: BitmapRGBA,
    bounding_box_offset: IVec2,
    texture_id: Option<usize>,
}

impl GlyphCacheEntry {
    pub closed spec fn bitmap(self) -> BitmapRGBA {
        self.glyph_bitmap
    }

    pub closed spec fn offset(self) -> IVec2 {
        self.bounding_box_offset
    }

    pub closed spec fn placed_in(self) -> Option<usize> {
        self.texture_id
    }

    pub open spec fn wf(self) -> bool {
        &&& self.bitmap().wf()
        &&& self.bitmap().spec_size().x <= CACHE_TEXTURE_SIZE
        &&& self.bitmap().spec_size().y <= CACHE_TEXTURE_SIZE
        &&& -MAX_BOUNDING_BOX_OFFSET <= self.offset().x <= MAX_BOUNDING_BOX_OFFSET
        &&& -MAX_BOUNDING_BOX_OFFSET <= self.offset().y <= MAX_BOUNDING_BOX_OFFSET
    }
}

/// What `insert_rasterized` did with the glyph it was handed.
#[derive(Debug, Hash, PartialEq, Eq, Clone, Copy, Structural)]
pub enum InsertOutcome {
    /// A new cache entry was created, not yet placed in any atlas.
    Inserted,
    /// An entry for this key already existed; nothing changed.
    AlreadyCached,
    /// The glyph has no visible pixels; no entry is kept for it.
    Empty,
    /// The glyph's bounding box exceeds one atlas texture in some dimension;
    /// it is dropped and will never render.
    TooBig,
}

/// The glyph cache: the key-to-entry map, the set of atlases, and the two
/// generational liveness sets deciding which entries a rebuild keeps.
pub struct GlyphCache {
    last_frame: Vec<GlyphCacheKey>,
    this_frame: Vec<GlyphCacheKey>,
    cache_entries: Vec<(GlyphCacheKey, GlyphCacheEntry)>,
    textures: Vec<GlyphCacheTexture>,
    next_texture_handle: u64,
}

/// No key occurs twice in a liveness set.
pub open spec fn no_dup_keys(s: Seq<GlyphCacheKey>) -> bool {
    forall|i: int, j: int| 0 <= i < j < s.len() ==> s[i] != s[j]
}

/// Every entry in the list sits in some atlas.
pub open spec fn all_placed(s: Seq<(GlyphCacheKey, GlyphCacheEntry)>) -> bool {
    forall|l: int| 0 <= l < s.len() ==> (#[trigger] s[l]).1.placed_in() is Some
}

/// Every cache entry in the list is well-formed.
pub open spec fn all_entries_wf(s: Seq<(GlyphCacheKey, GlyphCacheEntry)>) -> bool {
    forall|l: int| 0 <= l < s.len() ==> (#[trigger] s[l]).1.wf()
}

/// Every atlas in the list is well-formed.
pub open spec fn all_textures_wf(s: Seq<GlyphCacheTexture>) -> bool {
    forall|t: int| 0 <= t < s.len() ==> (#[trigger] s[t]).wf()
}

/// Each placed entry names an existing atlas that really holds its key.
pub open spec fn placements_consistent(
    es: Seq<(GlyphCacheKey, GlyphCacheEntry)>,
    ts: Seq<GlyphCacheTexture>,
) -> bool {
    forall|l: int|
        0 <= l < es.len() ==> match (#[trigger] es[l]).1.placed_in() {
            None => true,
            Some(t) => t < ts.len() && ts[t as int].has_key(es[l].0),
        }
}

/// The atlas records a placement of exactly the entry's bitmap size, and
/// the atlas pixels inside that placement are the entry's bitmap bytes.
#[verifier::opaque]
pub open spec fn entry_placed_exactly(
    e: (GlyphCacheKey, GlyphCacheEntry),
    atlas: GlyphCacheTexture,
) -> bool {
    let rect = atlas.rect_of(e.0);
    &&& atlas.has_key(e.0)
    &&& rect.wf()
    &&& rect.spec_width() == e.1.bitmap().spec_size().x
    &&& rect.spec_height() == e.1.bitmap().spec_size().y
    &&& rect.bottom_right.x <= CACHE_TEXTURE_SIZE
    &&& rect.bottom_right.y <= CACHE_TEXTURE_SIZE
    &&& forall|x: int, y: int, c: int|
        0 <= x < e.1.bitmap().spec_size().x && 0 <= y < e.1.bitmap().spec_size().y && 0 <= c < 4
            ==> atlas.bitmap_bytes()[#[trigger] byte_index(
            CACHE_TEXTURE_SIZE as int,
            rect.top_left.x + x,
            rect.top_left.y + y,
            c,
        )] == e.1.bitmap().byte_at(x, y, c)
}

/// Every placed entry's atlas holds its placement rectangle, and the atlas
/// bytes inside that rectangle are the entry's rasterized bitmap: what the
/// emitted texture coordinates point at is the glyph, never stale pixels.
pub open spec fn placements_hold_bitmaps(
    es: Seq<(GlyphCacheKey, GlyphCacheEntry)>,
    ts: Seq<GlyphCacheTexture>,
) -> bool {
    forall|l: int|
        0 <= l < es.len() ==> match (#[trigger] es[l]).1.placed_in() {
            None => true,
            Some(t) => t < ts.len() && entry_placed_exactly(es[l], ts[t as int]),
        }
}

impl GlyphCache {
    pub closed spec fn this_frame_keys(self) -> Seq<GlyphCacheKey> {
        self.this_frame@
    }

    pub closed spec fn last_frame_keys(self) -> Seq<GlyphCacheKey> {
        self.last_frame@
    }

    pub closed spec fn entries_seq(self) -> Seq<(GlyphCacheKey, GlyphCacheEntry)> {
        self.cache_entries@
    }

    pub closed spec fn textures_seq(self) -> Seq<GlyphCacheTexture> {
        self.textures@
    }

    pub open spec fn has_entry(self, k: GlyphCacheKey) -> bool {
        assoc_has(self.entries_seq(), k)
    }

    pub open spec fn entry_of(self, k: GlyphCacheKey) -> GlyphCacheEntry {
        assoc_at(self.entries_seq(), k)
    }

    /// The set of keys with a cache entry.
    pub open spec fn entry_key_set(self) -> Set<GlyphCacheKey> {
        Set::new(|k: GlyphCacheKey| self.has_entry(k))
    }

    /// The keys touched since the last frame boundary.
    pub open spec fn this_frame_set(self) -> Set<GlyphCacheKey> {
        self.this_frame_keys().to_set()
    }

    /// The keys touched during the previous frame.
    pub open spec fn last_frame_set(self) -> Set<GlyphCacheKey> {
        self.last_frame_keys().to_set()
    }

    /// Every entry has been placed in an atlas.
    pub open spec fn fully_placed(self) -> bool {
        all_placed(self.entries_seq())
    }

    /// The liveness-relevant view of the cache.
    pub open spec fn liveness(self) -> CacheLiveness {
        CacheLiveness {
            this_frame: self.this_frame_set(),
            last_frame: self.last_frame_set(),
            entries: self.entry_key_set(),
        }
    }

    pub open spec fn wf(self) -> bool {
        &&& no_dup_keys(self.this_frame_keys())
        &&& no_dup_keys(self.last_frame_keys())
        &&& unique_keys(self.entries_seq())
        &&& all_entries_wf(self.entries_seq())
        &&& all_textures_wf(self.textures_seq())
        &&& placements_consistent(self.entries_seq(), self.textures_seq())
        &&& placements_hold_bitmaps(self.entries_seq(), self.textures_seq())
    }

    /// An empty cache with no atlases.
    pub fn new() -> (r: GlyphCache)
        ensures
            r.wf(),
            r.entries_seq().len() == 0,
            r.this_frame_keys().len() == 0,
            r.last_frame_keys().len() == 0,
            r.textures_seq().len() == 0,
    {
        GlyphCache {
            last_frame: Vec::new(),
            this_frame: Vec::new(),
            cache_entries: Vec::new(),
            textures: Vec::new(),
            next_texture_handle: 0,
        }
    }

    /// A frame boundary: the finished frame's usage becomes the previous
    /// generation, and accumulation for the new frame starts from empty.
    pub fn on_new_frame_start(&mut self)
        requires
            old(self).wf(),
        ensures
            final(self).wf(),
            final(self).last_frame_keys() == old(self).this_frame_keys(),
            final(self).this_frame_keys().len() == 0,
            final(self).entries_seq() == old(self).entries_seq(),
            final(self).textures_seq() == old(self).textures_seq(),
            frame_boundary(old(self).liveness(), final(self).liveness()),
    {
        let mut finished: Vec<GlyphCacheKey> = Vec::new();
        core::mem::swap(&mut self.this_frame, &mut finished);
        self.last_frame = finished;
        proof {
            assert(self.this_frame_set() =~= Set::<GlyphCacheKey>::empty());
            assert(self.entry_key_set() =~= old(self).entry_key_set());
            assert(self.last_frame_set() =~= old(self).this_frame_set());
        }
    }

    /// Record that this key is used in the current frame, and report whether
    /// it still needs to be rasterized: true exactly when no cache entry
    /// exists for it yet. The caller rasterizes from the key's quantized
    /// values and hands the result to `insert_rasterized`.
    pub fn mark_used(&mut self, key: GlyphCacheKey) -> (needs_rasterization: bool)
        requires
            old(self).wf(),
        ensures
            final(self).wf(),
            final(self).this_frame_set() == old(self).this_frame_set().insert(key),
            final(self).last_frame_keys() == old(self).last_frame_keys(),
            final(self).entries_seq() == old(self).entries_seq(),
            final(self).textures_seq() == old(self).textures_seq(),
            needs_rasterization == !old(self).has_entry(key),
            frame_activity(old(self).liveness(), final(self).liveness()),
    {
        let ghost pre = self.this_frame@;
        if !frame_contains(&self.this_frame, &key) {
            self.this_frame.push(key);
            proof {
                assert forall|i: int, j: int|
                    0 <= i < j < self.this_frame@.len() implies self.this_frame@[i]
                    != self.this_frame@[j] by {
                    if j == self.this_frame@.len() - 1 {
                        assert(pre[i] != key);
                    }
                }
                let cur = self.this_frame@;
                assert forall|a: GlyphCacheKey|
                    cur.to_set().contains(a) == pre.to_set().insert(key).contains(a) by {
                    if a == key {
                        assert(cur[cur.len() - 1] == key);
                        assert(cur.contains(key));
                    } else {
                        if pre.contains(a) {
                            let w = choose|w: int| 0 <= w < pre.len() && pre[w] == a;
                            assert(cur[w] == a);
                            assert(cur.contains(a));
                        }
                        if cur.contains(a) {
                            let w = choose|w: int| 0 <= w < cur.len() && cur[w] == a;
                            assert(pre[w] == a);
                            assert(pre.contains(a));
                        }
                    }
                }
                assert(self.this_frame@.to_set() =~= pre.to_set().insert(key));
            }
        } else {
            proof {
                assert(pre.to_set().contains(key));
                assert(self.this_frame@.to_set() =~= pre.to_set().insert(key));
            }
        }
        match assoc_find(&self.cache_entries, &key) {
            Some(_) => false,
            None => true,
        }
    }

    /// Store a freshly rasterized glyph under its key, if the cache should
    /// keep it: nothing is stored when an entry already exists, when the
    /// rasterizer found no visible pixels (`None`), or when the bounding box
    /// exceeds one atlas texture in either dimension (the glyph is dropped
    /// for good and the caller may report it). A new entry starts unplaced.
    pub fn insert_rasterized(&mut self, key: GlyphCacheKey, raster: Option<&RasterizedGlyph>)
        -> (outcome: InsertOutcome)
        requires
            old(self).wf(),
            match raster {
                Some(r) => r.wf(),
                None => true,
            },
        ensures
            final(self).wf(),
            final(self).this_frame_keys() == old(self).this_frame_keys(),
            final(self).last_frame_keys() == old(self).last_frame_keys(),
            final(self).textures_seq() == old(self).textures_seq(),
            outcome == InsertOutcome::AlreadyCached <==> old(self).has_entry(key),
            frame_activity(old(self).liveness(), final(self).liveness()),
            match outcome {
                InsertOutcome::AlreadyCached => final(self).entries_seq() == old(self).entries_seq(),
                InsertOutcome::Empty => raster is None && final(self).entries_seq() == old(self).entries_seq(),
                InsertOutcome::TooBig => {
                    &&& raster matches Some(r) && (r.size.x > CACHE_TEXTURE_SIZE || r.size.y
                        > CACHE_TEXTURE_SIZE)
                    &&& final(self).entries_seq() == old(self).entries_seq()
                },
                InsertOutcome::Inserted => {
                    &&& final(self).entries_seq().len() == old(self).entries_seq().len() + 1
                    &&& final(self).entries_seq()[final(self).entries_seq().len() - 1].0 == key
                    &&& forall|l: int|
                        0 <= l < old(self).entries_seq().len() ==> final(self).entries_seq()[l]
                            == old(self).entries_seq()[l]
                    &&& final(self).has_entry(key)
                    &&& final(self).entry_of(key).placed_in() is None
                    &&& raster matches Some(r) && (r.size.x <= CACHE_TEXTURE_SIZE && r.size.y
                        <= CACHE_TEXTURE_SIZE && final(self).entry_of(key).offset()
                        == r.bounding_box_offset && final(self).entry_of(key).bitmap().spec_size()
                        == r.size && (forall|j: int|
                        0 <= j < final(self).entry_of(key).bitmap().bytes().len()
                            ==> #[trigger] final(self).entry_of(key).bitmap().bytes()[j]
                            == crate::bitmap::spec_glyph_byte(r.coverage@, j)))
                },
            },
    {
        match assoc_find(&self.cache_entries, &key) {
            Some(_) => InsertOutcome::AlreadyCached,
            None => {
                match raster {
                    None => InsertOutcome::Empty,
                    Some(r) => {
                        if r.size.x > CACHE_TEXTURE_SIZE || r.size.y > CACHE_TEXTURE_SIZE {
                            return InsertOutcome::TooBig;
                        }
                        proof {
                            assert(byte_count(r.size) <= u32::MAX) by (nonlinear_arith)
                                requires
                                    r.size.x <= CACHE_TEXTURE_SIZE,
                                    r.size.y <= CACHE_TEXTURE_SIZE,
                                    CACHE_TEXTURE_SIZE == 1024,
                            ;
                        }
                        let mut bitmap = BitmapRGBA::new(r.size);
                        bitmap.draw_glyph(&r.coverage);
                        let entry = GlyphCacheEntry {
                            glyph_bitmap: bitmap,
                            bounding_box_offset: r.bounding_box_offset,
                            texture_id: None,
                        };
                        let ghost pre = self.cache_entries@;
                        self.cache_entries.push((key, entry));
                        proof {
                            lemma_assoc_push(pre, self.cache_entries@[pre.len() as int]);
                            let cur = self.cache_entries@;
                            assert forall|l: int| 0 <= l < cur.len() implies (#[trigger] cur[l]).1.wf() by {
                                if l < pre.len() {
                                    assert(pre[l].1.wf());
                                }
                            }
                            assert(placements_consistent(pre, self.textures@));
                            assert forall|l: int|
                                0 <= l < cur.len() implies match (#[trigger] cur[l]).1.placed_in() {
                                None => true,
                                Some(t) => t < self.textures@.len()
                                    && self.textures@[t as int].has_key(cur[l].0),
                            } by {
                                if l < pre.len() {
                                    assert(cur[l] == pre[l]);
                                }
                            }
                        }
                        InsertOutcome::Inserted
                    },
                }
            },
        }
    }
}

/// Two different keys of one atlas sit in placements that share no pixel.
pub proof fn lemma_atlas_rects_disjoint(
    atlas: GlyphCacheTexture,
    k1: GlyphCacheKey,
    k2: GlyphCacheKey,
)
    requires
        atlas.wf(),
        atlas.has_key(k1),
        atlas.has_key(k2),
        k1 != k2,
    ensures
        atlas.rect_of(k1).spec_disjoint(atlas.rect_of(k2)),
{
    let s = atlas.placements();
    let i1 = choose|i: int| 0 <= i < s.len() && (#[trigger] s[i]).0 == k1;
    let i2 = choose|i: int| 0 <= i < s.len() && (#[trigger] s[i]).0 == k2;
    lemma_assoc_at_index(s, k1, i1);
    lemma_assoc_at_index(s, k2, i2);
    if i1 < i2 {
        assert(s[i1].1.spec_disjoint(s[i2].1));
    } else {
        assert(s[i2].1.spec_disjoint(s[i1].1));
    }
}

/// The free-region lists of a row of atlases, in atlas order.
pub open spec fn spec_atlas_regions(ts: Seq<GlyphCacheTexture>) -> Seq<Seq<URect>> {
    ts.map_values(|t: GlyphCacheTexture| t.free_regions())
}

/// The first atlas at or after index `t` whose free space admits an
/// allocation of `size`.
pub open spec fn spec_first_accepting(
    regions: Seq<Seq<URect>>,
    size: UVec2,
    t: int,
) -> Option<int>
    decreases regions.len() - t,
{
    if t < 0 || t >= regions.len() {
        None
    } else if spec_try_allocate(regions[t], size) is Some {
        Some(t)
    } else {
        spec_first_accepting(regions, size, t + 1)
    }
}

/// An atlas that admits `size`, with none before it admitting, is the first
/// accepting atlas.
proof fn lemma_first_accepting_is(regions: Seq<Seq<URect>>, size: UVec2, i: int, from: int)
    requires
        0 <= from <= i < regions.len(),
        spec_try_allocate(regions[i], size) is Some,
        forall|j: int|
            0 <= j < i ==> spec_try_allocate(#[trigger] regions[j], size) is None,
    ensures
        spec_first_accepting(regions, size, from) == Some(i),
    decreases i - from,
{
    if from < i {
        lemma_first_accepting_is(regions, size, i, from + 1);
    }
}

/// When no atlas admits `size`, there is no first accepting atlas.
proof fn lemma_first_accepting_none(regions: Seq<Seq<URect>>, size: UVec2, from: int)
    requires
        forall|j: int|
            0 <= j < regions.len() ==> spec_try_allocate(#[trigger] regions[j], size) is None,
    ensures
        spec_first_accepting(regions, size, from) is None,
    decreases regions.len() - from,
{
    if 0 <= from < regions.len() {
        lemma_first_accepting_none(regions, size, from + 1);
    }
}

/// The atlas free-region lists after phase-1 incremental placement has
/// processed the first `l` entries: each unplaced entry takes the first
/// atlas whose free space admits its bitmap, consuming that atlas's space.
/// Past an entry that fits nowhere the lists are carried unchanged;
/// `spec_phase1_succeeds` says whether that ever happens.
pub open spec fn spec_phase1_regions(
    entries: Seq<(GlyphCacheKey, GlyphCacheEntry)>,
    regions: Seq<Seq<URect>>,
    l: int,
) -> Seq<Seq<URect>>
    decreases l,
{
    if l <= 0 {
        regions
    } else {
        let prev = spec_phase1_regions(entries, regions, l - 1);
        if l > entries.len() || entries[l - 1].1.placed_in() is Some {
            prev
        } else {
            match spec_first_accepting(prev, entries[l - 1].1.bitmap().spec_size(), 0) {
                None => prev,
                Some(t) => match spec_try_allocate(
                    prev[t],
                    entries[l - 1].1.bitmap().spec_size(),
                ) {
                    None => prev,
                    Some(pr) => prev.update(t, pr.1),
                },
            }
        }
    }
}

/// Phase-1 placement finds room for the entry at index `l`: it is already
/// placed, or some atlas — with the space left once the entries before it
/// were placed — admits its bitmap.
pub open spec fn spec_phase1_step_ok(
    entries: Seq<(GlyphCacheKey, GlyphCacheEntry)>,
    regions: Seq<Seq<URect>>,
    l: int,
) -> bool {
    entries[l].1.placed_in() is Some || spec_first_accepting(
        spec_phase1_regions(entries, regions, l),
        entries[l].1.bitmap().spec_size(),
        0,
    ) is Some
}

/// Phase-1 incremental placement, walking the entries in order over the
/// given atlas free space, finds room for every unplaced entry. A rebuild
/// is triggered exactly when this fails.
pub open spec fn spec_phase1_succeeds(
    entries: Seq<(GlyphCacheKey, GlyphCacheEntry)>,
    regions: Seq<Seq<URect>>,
) -> bool {
    forall|l: int| 0 <= l < entries.len() ==> spec_phase1_step_ok(entries, regions, l)
}

impl GlyphCache {
    /// Try to place one glyph bitmap in some existing atlas, in index order,
    /// taking the first whose free space admits it. On success the atlas
    /// index is the least accepting one; on failure no atlas admits the
    /// bitmap and every atlas is left unchanged.
    fn try_append_to_existing_texture(
        all_textures: &mut Vec<GlyphCacheTexture>,
        key: &GlyphCacheKey,
        glyph_bitmap: &BitmapRGBA,
    ) -> (res: Result<usize, GlyphCacheTextureAppendError>)
        requires
            all_textures_wf(old(all_textures)@),
            glyph_bitmap.wf(),
            glyph_bitmap.spec_size().x <= CACHE_TEXTURE_SIZE,
            glyph_bitmap.spec_size().y <= CACHE_TEXTURE_SIZE,
        ensures
            all_textures_wf(final(all_textures)@),
            final(all_textures)@.len() == old(all_textures)@.len(),
            match res {
                Ok(t) => {
                    &&& t < old(all_textures)@.len()
                    &&& final(all_textures)@[t as int].has_key(*key)
                    &&& final(all_textures)@[t as int].spec_texture() == old(all_textures)@[t as int].spec_texture()
                    &&& final(all_textures)@[t as int].spec_invalidated()
                    &&& forall|j: int|
                        0 <= j < old(all_textures)@.len() && j != t ==> final(all_textures)@[j]
                            == old(all_textures)@[j]
                    &&& forall|k: GlyphCacheKey|
                        k != *key ==> #[trigger] final(all_textures)@[t as int].has_key(k) == old(all_textures)@[t as int].has_key(k)
                            && (old(all_textures)@[t as int].has_key(k) ==> final(all_textures)@[t as int].rect_of(k)
                            == old(all_textures)@[t as int].rect_of(k))
                    &&& forall|j: int|
                        0 <= j < t ==> spec_try_allocate(
                            (#[trigger] old(all_textures)@[j]).free_regions(),
                            glyph_bitmap.spec_size(),
                        ) is None
                    &&& match spec_try_allocate(
                        old(all_textures)@[t as int].free_regions(),
                        glyph_bitmap.spec_size(),
                    ) {
                        None => false,
                        Some(pr) => final(all_textures)@[t as int].free_regions() == pr.1
                            && final(all_textures)@[t as int].rect_of(*key) == pr.0,
                    }
                    &&& ({
                        let rect = final(all_textures)@[t as int].rect_of(*key);
                        &&& rect.wf()
                        &&& rect.spec_width() == glyph_bitmap.spec_size().x
                        &&& rect.spec_height() == glyph_bitmap.spec_size().y
                        &&& rect.bottom_right.x <= CACHE_TEXTURE_SIZE
                        &&& rect.bottom_right.y <= CACHE_TEXTURE_SIZE
                        &&& forall|x: int, y: int, c: int|
                            0 <= x < glyph_bitmap.spec_size().x && 0 <= y
                                < glyph_bitmap.spec_size().y && 0 <= c < 4 ==> final(all_textures)@[t as int].bitmap_bytes()[#[trigger] byte_index(
                                CACHE_TEXTURE_SIZE as int,
                                rect.top_left.x + x,
                                rect.top_left.y + y,
                                c,
                            )] == glyph_bitmap.byte_at(x, y, c)
                        &&& forall|x: int, y: int, c: int|
                            0 <= x < CACHE_TEXTURE_SIZE && 0 <= y < CACHE_TEXTURE_SIZE && 0 <= c
                                < 4 && !rect.spec_contains_pixel(x, y) ==> final(all_textures)@[t as int].bitmap_bytes()[#[trigger] byte_index(
                                CACHE_TEXTURE_SIZE as int,
                                x,
                                y,
                                c,
                            )] == old(all_textures)@[t as int].bitmap_bytes()[byte_index(
                                CACHE_TEXTURE_SIZE as int,
                                x,
                                y,
                                c,
                            )]
                    })
                },
                Err(e) => {
                    &&& e == GlyphCacheTextureAppendError::NotEnoughSpace
                    &&& final(all_textures)@ == old(all_textures)@
                    &&& forall|j: int|
                        0 <= j < old(all_textures)@.len() ==> spec_try_allocate(
                            (#[trigger] old(all_textures)@[j]).free_regions(),
                            glyph_bitmap.spec_size(),
                        ) is None
                },
            },
    {
        let n: usize = all_textures.len();
        let mut i: usize = 0;
        while i < n
            invariant
                n == all_textures@.len(),
                i <= n,
                all_textures@ == old(all_textures)@,
                all_textures_wf(all_textures@),
                glyph_bitmap.wf(),
                glyph_bitmap.spec_size().x <= CACHE_TEXTURE_SIZE,
                glyph_bitmap.spec_size().y <= CACHE_TEXTURE_SIZE,
                forall|j: int|
                    0 <= j < i ==> spec_try_allocate(
                        (#[trigger] old(all_textures)@[j]).free_regions(),
                        glyph_bitmap.spec_size(),
                    ) is None,
            decreases n - i,
        {
            let ghost pre = all_textures@;
            let tex = &mut all_textures[i];
            let r = tex.try_append_glyph(key, glyph_bitmap);
            match r {
                Ok(()) => {
                    proof {
                        assert forall|t: int|
                            0 <= t < all_textures@.len() implies (#[trigger] all_textures@[t]).wf()
                        by {
                            if t != i {
                                assert(all_textures@[t] == pre[t]);
                            }
                        }
                    }
                    return Ok(i);
                },
                Err(GlyphCacheTextureAppendError::NotEnoughSpace) => {
                    proof {
                        assert(all_textures@ =~= pre);
                    }
                },
            }
            i = i + 1;
        }
        Err(GlyphCacheTextureAppendError::NotEnoughSpace)
    }

    /// Try to give every not-yet-placed entry a spot in some existing atlas.
    /// The first entry that fits nowhere aborts the pass with an error;
    /// placements made before that point are kept (a following rebuild clears
    /// them anyway). When the cache was already fully placed, nothing at all
    /// changes.
    fn try_insert_pending(&mut self) -> (res: Result<(), GlyphCacheTextureAppendError>)
        requires
            old(self).wf(),
        ensures
            final(self).wf(),
            res is Ok <==> spec_phase1_succeeds(
                old(self).entries_seq(),
                spec_atlas_regions(old(self).textures_seq()),
            ),
            res is Ok ==> forall|l: int|
                0 <= l < old(self).entries_seq().len() && (#[trigger] old(self).entries_seq()[l]).1.placed_in() is None
                    ==> final(self).entries_seq()[l].1.placed_in() == (match spec_first_accepting(
                    spec_phase1_regions(
                        old(self).entries_seq(),
                        spec_atlas_regions(old(self).textures_seq()),
                        l,
                    ),
                    old(self).entries_seq()[l].1.bitmap().spec_size(),
                    0,
                ) {
                    Some(t) => Some(t as usize),
                    None => None::<usize>,
                }),
            final(self).this_frame_keys() == old(self).this_frame_keys(),
            final(self).last_frame_keys() == old(self).last_frame_keys(),
            final(self).entries_seq().len() == old(self).entries_seq().len(),
            forall|l: int|
                0 <= l < old(self).entries_seq().len() ==> {
                    &&& (#[trigger] final(self).entries_seq()[l]).0 == old(self).entries_seq()[l].0
                    &&& final(self).entries_seq()[l].1.bitmap() == old(self).entries_seq()[l].1.bitmap()
                    &&& final(self).entries_seq()[l].1.offset() == old(self).entries_seq()[l].1.offset()
                    &&& (old(self).entries_seq()[l].1.placed_in() is Some ==> final(self).entries_seq()[l].1.placed_in() == old(self).entries_seq()[l].1.placed_in())
                },
            final(self).textures_seq().len() == old(self).textures_seq().len(),
            forall|t: int|
                0 <= t < old(self).textures_seq().len()
                    ==> (#[trigger] final(self).textures_seq()[t]).spec_texture() == old(self).textures_seq()[t].spec_texture(),
            res is Ok ==> final(self).fully_placed(),
            old(self).fully_placed() ==> *final(self) == *old(self) && res is Ok,
    {
        let ghost entries0 = self.cache_entries@;
        let ghost regions0 = spec_atlas_regions(self.textures@);
        let n: usize = self.cache_entries.len();
        let mut l: usize = 0;
        while l < n
            invariant
                self.wf(),
                n == self.cache_entries@.len(),
                l <= n,
                entries0 == old(self).cache_entries@,
                regions0 == spec_atlas_regions(old(self).textures@),
                spec_atlas_regions(self.textures@) == spec_phase1_regions(
                    entries0,
                    regions0,
                    l as int,
                ),
                forall|m: int| 0 <= m < l ==> spec_phase1_step_ok(entries0, regions0, m),
                forall|m: int|
                    l <= m < n ==> self.cache_entries@[m] == old(self).cache_entries@[m],
                forall|m: int|
                    0 <= m < l && (#[trigger] entries0[m]).1.placed_in() is None
                        ==> self.cache_entries@[m].1.placed_in() == (match spec_first_accepting(
                        spec_phase1_regions(entries0, regions0, m),
                        entries0[m].1.bitmap().spec_size(),
                        0,
                    ) {
                        Some(t) => Some(t as usize),
                        None => None::<usize>,
                    }),
                self.this_frame@ == old(self).this_frame@,
                self.last_frame@ == old(self).last_frame@,
                self.cache_entries@.len() == old(self).cache_entries@.len(),
                forall|m: int|
                    0 <= m < old(self).cache_entries@.len() ==> {
                        &&& (#[trigger] self.cache_entries@[m]).0 == old(self).cache_entries@[m].0
                        &&& self.cache_entries@[m].1.bitmap() == old(self).cache_entries@[m].1.bitmap()
                        &&& self.cache_entries@[m].1.offset() == old(self).cache_entries@[m].1.offset()
                        &&& (old(self).cache_entries@[m].1.placed_in() is Some
                            ==> self.cache_entries@[m].1.placed_in() == old(self).cache_entries@[m].1.placed_in())
                    },
                self.textures@.len() == old(self).textures@.len(),
                forall|t: int|
                    0 <= t < old(self).textures@.len()
                        ==> (#[trigger] self.textures@[t]).spec_texture() == old(self).textures@[t].spec_texture(),
                forall|m: int|
                    0 <= m < l ==> (#[trigger] self.cache_entries@[m]).1.placed_in() is Some,
                old(self).fully_placed() ==> *self == *old(self),
            decreases n - l,
        {
            let placed = match self.cache_entries[l].1.texture_id {
                Some(_) => true,
                None => false,
            };
            proof {
                assert(self.cache_entries@[l as int] == entries0[l as int]);
            }
            if !placed {
                let ghost pre_entries = self.cache_entries@;
                let ghost pre_textures = self.textures@;
                let ghost size = entries0[l as int].1.bitmap().spec_size();
                let key = self.cache_entries[l].0;
                let r = GlyphCache::try_append_to_existing_texture(
                    &mut self.textures,
                    &key,
                    &self.cache_entries[l].1.glyph_bitmap,
                );
                match r {
                    Ok(t) => {
                        proof {
                            lemma_first_accepting_is(
                                spec_atlas_regions(pre_textures),
                                size,
                                t as int,
                                0,
                            );
                            assert(spec_first_accepting(
                                spec_phase1_regions(entries0, regions0, l as int),
                                size,
                                0,
                            ) == Some(t as int));
                            assert(spec_phase1_step_ok(entries0, regions0, l as int));
                            assert(spec_atlas_regions(self.textures@) =~= spec_atlas_regions(
                                pre_textures,
                            ).update(
                                t as int,
                                (match spec_try_allocate(
                                    spec_atlas_regions(pre_textures)[t as int],
                                    size,
                                ) {
                                    Some(pr) => pr.1,
                                    None => Seq::empty(),
                                }),
                            ));
                            assert(spec_atlas_regions(self.textures@) == spec_phase1_regions(
                                entries0,
                                regions0,
                                l + 1,
                            ));
                        }
                        let e = &mut self.cache_entries[l];
                        e.1.texture_id = Some(t);
                        proof {
                            reveal(entry_placed_exactly);
                            assert forall|m: int|
                                0 <= m < self.cache_entries@.len() implies (#[trigger] self.cache_entries@[m]).1.wf()
                            by {
                                assert(pre_entries[m].1.wf());
                            }
                            assert forall|a: int, b: int|
                                0 <= a < b < self.cache_entries@.len() implies (#[trigger] self.cache_entries@[a]).0
                                != (#[trigger] self.cache_entries@[b]).0 by {
                                assert(pre_entries[a].0 != pre_entries[b].0);
                            }
                            assert forall|m: int|
                                0 <= m < self.cache_entries@.len() implies match (#[trigger] self.cache_entries@[m]).1.placed_in() {
                                None => true,
                                Some(t2) => t2 < self.textures@.len()
                                    && self.textures@[t2 as int].has_key(self.cache_entries@[m].0),
                            } by {
                                if m != l {
                                    assert(self.cache_entries@[m] == pre_entries[m]);
                                    match pre_entries[m].1.placed_in() {
                                        None => {},
                                        Some(t2) => {
                                            if t2 != t {
                                                assert(self.textures@[t2 as int] == pre_textures[t2 as int]);
                                            } else {
                                                assert(self.textures@[t as int].has_key(
                                                    pre_entries[m].0,
                                                ) == pre_textures[t as int].has_key(
                                                    pre_entries[m].0,
                                                ));
                                            }
                                        },
                                    }
                                }
                            }
                            assert forall|m: int|
                                0 <= m < self.cache_entries@.len() implies match (#[trigger] self.cache_entries@[m]).1.placed_in() {
                                None => true,
                                Some(t2) => t2 < self.textures@.len() && entry_placed_exactly(
                                    self.cache_entries@[m],
                                    self.textures@[t2 as int],
                                ),
                            } by {
                                if m == l {
                                    assert(self.cache_entries@[l as int].1.bitmap()
                                        == pre_entries[l as int].1.bitmap());
                                } else {
                                    assert(self.cache_entries@[m] == pre_entries[m]);
                                    match pre_entries[m].1.placed_in() {
                                        None => {},
                                        Some(t2) => {
                                            assert(entry_placed_exactly(
                                                pre_entries[m],
                                                pre_textures[t2 as int],
                                            ));
                                            if t2 != t {
                                                assert(self.textures@[t2 as int]
                                                    == pre_textures[t2 as int]);
                                            } else {
                                                let k2 = pre_entries[m].0;
                                                assert(k2 != key);
                                                assert(pre_textures[t as int].has_key(k2));
                                                assert(self.textures@[t as int].rect_of(k2)
                                                    == pre_textures[t as int].rect_of(k2));
                                                let w_rect = pre_textures[t as int].rect_of(k2);
                                                let new_rect = self.textures@[t as int].rect_of(
                                                    key,
                                                );
                                                lemma_atlas_rects_disjoint(
                                                    self.textures@[t as int],
                                                    k2,
                                                    key,
                                                );
                                                let dims = pre_entries[m].1.bitmap().spec_size();
                                                assert forall|x: int, y: int, c: int|
                                                    0 <= x < dims.x && 0 <= y < dims.y && 0 <= c
                                                        < 4 implies self.textures@[t as int].bitmap_bytes()[#[trigger] byte_index(
                                                    CACHE_TEXTURE_SIZE as int,
                                                    w_rect.top_left.x + x,
                                                    w_rect.top_left.y + y,
                                                    c,
                                                )] == pre_entries[m].1.bitmap().byte_at(x, y, c)
                                                by {
                                                    assert(w_rect.spec_contains_pixel(
                                                        w_rect.top_left.x + x,
                                                        w_rect.top_left.y + y,
                                                    ));
                                                    lemma_disjoint_no_common_pixel(
                                                        w_rect,
                                                        new_rect,
                                                        w_rect.top_left.x + x,
                                                        w_rect.top_left.y + y,
                                                    );
                                                }
                                            }
                                        },
                                    }
                                }
                            }
                        }
                    },
                    Err(e) => {
                        proof {
                            lemma_first_accepting_none(spec_atlas_regions(pre_textures), size, 0);
                            assert(!spec_phase1_step_ok(entries0, regions0, l as int));
                            assert(!spec_phase1_succeeds(entries0, regions0));
                        }
                        return Err(e);
                    },
                }
            } else {
                proof {
                    assert(spec_phase1_step_ok(entries0, regions0, l as int));
                    assert(spec_phase1_regions(entries0, regions0, l + 1) == spec_phase1_regions(
                        entries0,
                        regions0,
                        l as int,
                    ));
                }
            }
            l = l + 1;
        }
        Ok(())
    }
}

impl GlyphCache {
    /// Order surviving entries by bitmap height, tallest first: the shelf
    /// heuristic that keeps mixed glyph heights from wasting vertical atlas
    /// space during a rebuild. The association content is untouched.
    fn sort_entries_by_height_desc(entries: Vec<(GlyphCacheKey, GlyphCacheEntry)>) -> (r: Vec<
        (GlyphCacheKey, GlyphCacheEntry),
    >)
        requires
            unique_keys(entries@),
            all_entries_wf(entries@),
        ensures
            unique_keys(r@),
            all_entries_wf(r@),
            r@.len() == entries@.len(),
            forall|k: GlyphCacheKey| #[trigger] assoc_has(r@, k) == assoc_has(entries@, k),
            forall|k: GlyphCacheKey|
                assoc_has(entries@, k) ==> #[trigger] assoc_at(r@, k) == assoc_at(entries@, k),
            forall|a: int, b: int|
                0 <= a < b < r@.len() ==> (#[trigger] r@[a]).1.bitmap().spec_size().y
                    >= (#[trigger] r@[b]).1.bitmap().spec_size().y,
    {
        let ghost orig = entries@;
        let mut rest = entries;
        let mut out: Vec<(GlyphCacheKey, GlyphCacheEntry)> = Vec::new();
        while rest.len() > 0
            invariant
                unique_keys(rest@),
                unique_keys(out@),
                all_entries_wf(rest@),
                all_entries_wf(out@),
                out@.len() + rest@.len() == orig.len(),
                forall|k: GlyphCacheKey|
                    #[trigger] assoc_has(orig, k) == (assoc_has(out@, k) || assoc_has(rest@, k)),
                forall|k: GlyphCacheKey| !(#[trigger] assoc_has(out@, k) && assoc_has(rest@, k)),
                forall|k: GlyphCacheKey|
                    assoc_has(out@, k) ==> #[trigger] assoc_at(out@, k) == assoc_at(orig, k),
                forall|k: GlyphCacheKey|
                    assoc_has(rest@, k) ==> #[trigger] assoc_at(rest@, k) == assoc_at(orig, k),
                forall|a: int, b: int|
                    0 <= a < b < out@.len() ==> (#[trigger] out@[a]).1.bitmap().spec_size().y
                        >= (#[trigger] out@[b]).1.bitmap().spec_size().y,
                forall|a: int, b: int|
                    0 <= a < out@.len() && 0 <= b < rest@.len()
                        ==> (#[trigger] out@[a]).1.bitmap().spec_size().y
                        >= (#[trigger] rest@[b]).1.bitmap().spec_size().y,
            decreases rest@.len(),
        {
            let m: usize = rest.len();
            let mut mi: usize = 0;
            let mut i: usize = 1;
            while i < m
                invariant
                    m == rest@.len(),
                    m > 0,
                    i <= m,
                    mi < i,
                    all_entries_wf(rest@),
                    forall|j: int|
                        0 <= j < i ==> rest@[mi as int].1.bitmap().spec_size().y
                            >= (#[trigger] rest@[j]).1.bitmap().spec_size().y,
                decreases m - i,
            {
                if rest[i].1.glyph_bitmap.size().y > rest[mi].1.glyph_bitmap.size().y {
                    mi = i;
                }
                i = i + 1;
            }
            let ghost pre_rest = rest@;
            let ghost pre_out = out@;
            let kv = rest.remove(mi);
            proof {
                lemma_assoc_remove(pre_rest, mi as int);
            }
            out.push(kv);
            proof {
                lemma_assoc_push(pre_out, out@[pre_out.len() as int]);
                assert(out@[pre_out.len() as int] == pre_rest[mi as int]);
                lemma_assoc_at_index(pre_rest, pre_rest[mi as int].0, mi as int);
            }
        }
        proof {
            assert forall|k: GlyphCacheKey| #[trigger] assoc_has(out@, k) == assoc_has(orig, k)
            by {}
        }
        out
    }

    /// Place one glyph during a rebuild: try every active atlas in order,
    /// then one atlas pulled from the pool of cleared spares, and finally a
    /// brand-new atlas. A glyph whose bitmap cannot fit even an empty atlas
    /// is an error; anything else finds a home.
    fn internal_rearrange_append_glyph(
        current_textures: &mut Vec<GlyphCacheTexture>,
        previous_textures: &mut Vec<GlyphCacheTexture>,
        next_texture_handle: &mut u64,
        key: &GlyphCacheKey,
        glyph_bitmap: &BitmapRGBA,
    ) -> (res: Result<usize, PrepareForDrawError>)
        requires
            all_textures_wf(old(current_textures)@),
            all_textures_wf(old(previous_textures)@),
            forall|p: int|
                0 <= p < old(previous_textures)@.len() ==> (#[trigger] old(previous_textures)@[p]).is_cleared(),
            glyph_bitmap.wf(),
            glyph_bitmap.spec_size().x <= CACHE_TEXTURE_SIZE,
            glyph_bitmap.spec_size().y <= CACHE_TEXTURE_SIZE,
        ensures
            all_textures_wf(final(current_textures)@),
            all_textures_wf(final(previous_textures)@),
            final(previous_textures)@ == old(previous_textures)@ || final(previous_textures)@
                == old(previous_textures)@.drop_last(),
            forall|p: int|
                0 <= p < final(previous_textures)@.len() ==> (#[trigger] final(previous_textures)@[p]).is_cleared(),
            final(current_textures)@.len() >= old(current_textures)@.len(),
            final(current_textures)@.len() + final(previous_textures)@.len() >= old(
                current_textures,
            )@.len() + old(previous_textures)@.len(),
            forall|j: int|
                0 <= j < old(current_textures)@.len() && (match res {
                    Ok(t) => j != t,
                    Err(_) => true,
                }) ==> final(current_textures)@[j] == old(current_textures)@[j],
            match res {
                Ok(t) => {
                    &&& t < final(current_textures)@.len()
                    &&& (t < old(current_textures)@.len() ==> final(current_textures)@.len()
                        == old(current_textures)@.len())
                    &&& (t >= old(current_textures)@.len() ==> t == final(current_textures)@.len()
                        - 1 && final(current_textures)@.len() == old(current_textures)@.len() + 1)
                    &&& final(current_textures)@[t as int].has_key(*key)
                    &&& final(current_textures)@[t as int].spec_invalidated()
                    &&& forall|k: GlyphCacheKey|
                        k != *key ==> #[trigger] final(current_textures)@[t as int].has_key(k) == (
                        if t < old(current_textures)@.len() {
                            old(current_textures)@[t as int].has_key(k)
                        } else {
                            false
                        })
                    &&& (t < old(current_textures)@.len() ==> forall|k: GlyphCacheKey|
                        k != *key && old(current_textures)@[t as int].has_key(k)
                            ==> #[trigger] final(current_textures)@[t as int].rect_of(k) == old(
                            current_textures,
                        )@[t as int].rect_of(k))
                    &&& ({
                        let rect = final(current_textures)@[t as int].rect_of(*key);
                        &&& rect.wf()
                        &&& rect.spec_width() == glyph_bitmap.spec_size().x
                        &&& rect.spec_height() == glyph_bitmap.spec_size().y
                        &&& rect.bottom_right.x <= CACHE_TEXTURE_SIZE
                        &&& rect.bottom_right.y <= CACHE_TEXTURE_SIZE
                        &&& forall|x: int, y: int, c: int|
                            0 <= x < glyph_bitmap.spec_size().x && 0 <= y
                                < glyph_bitmap.spec_size().y && 0 <= c < 4 ==> final(current_textures)@[t as int].bitmap_bytes()[#[trigger] byte_index(
                                CACHE_TEXTURE_SIZE as int,
                                rect.top_left.x + x,
                                rect.top_left.y + y,
                                c,
                            )] == glyph_bitmap.byte_at(x, y, c)
                        &&& (t < old(current_textures)@.len() ==> forall|x: int, y: int, c: int|
                            0 <= x < CACHE_TEXTURE_SIZE && 0 <= y < CACHE_TEXTURE_SIZE && 0 <= c
                                < 4 && !rect.spec_contains_pixel(x, y) ==> final(current_textures)@[t as int].bitmap_bytes()[#[trigger] byte_index(
                                CACHE_TEXTURE_SIZE as int,
                                x,
                                y,
                                c,
                            )] == old(current_textures)@[t as int].bitmap_bytes()[byte_index(
                                CACHE_TEXTURE_SIZE as int,
                                x,
                                y,
                                c,
                            )])
                    })
                    &&& forall|j: int|
                        old(current_textures)@.len() <= j < final(current_textures)@.len() && j
                            != t ==> !(#[trigger] final(current_textures)@[j]).has_key(*key)
                    &&& (t < old(current_textures)@.len() ==> spec_try_allocate(
                        old(current_textures)@[t as int].free_regions(),
                        glyph_bitmap.spec_size(),
                    ) is Some && forall|j: int|
                        0 <= j < t ==> spec_try_allocate(
                            (#[trigger] old(current_textures)@[j]).free_regions(),
                            glyph_bitmap.spec_size(),
                        ) is None)
                    &&& (t >= old(current_textures)@.len() ==> forall|j: int|
                        0 <= j < old(current_textures)@.len() ==> spec_try_allocate(
                            (#[trigger] old(current_textures)@[j]).free_regions(),
                            glyph_bitmap.spec_size(),
                        ) is None)
                },
                Err(e) => {
                    &&& e == PrepareForDrawError::GlyphRearrangementFailed
                    &&& !fits_fresh_atlas(glyph_bitmap.spec_size())
                    &&& forall|j: int|
                        old(current_textures)@.len() <= j < final(current_textures)@.len()
                            ==> (#[trigger] final(current_textures)@[j]).is_cleared()
                },
            },
            fits_fresh_atlas(glyph_bitmap.spec_size()) ==> res is Ok,
    {
        match GlyphCache::try_append_to_existing_texture(current_textures, key, glyph_bitmap) {
            Ok(i) => {
                proof {
                    assert forall|k: GlyphCacheKey|
                        k != *key && old(current_textures)@[i as int].has_key(k) implies #[trigger] current_textures@[i as int].rect_of(
                        k,
                    ) == old(current_textures)@[i as int].rect_of(k) by {
                        assert(current_textures@[i as int].has_key(k));
                    }
                }
                return Ok(i);
            },
            Err(GlyphCacheTextureAppendError::NotEnoughSpace) => {},
        }

        if previous_textures.len() > 0 {
            let tex = match previous_textures.pop() {
                Some(tex) => tex,
                None => {
                    proof {
                        assert(false);
                    }
                    return Err(PrepareForDrawError::GlyphRearrangementFailed);
                },
            };
            current_textures.push(tex);
            let li: usize = current_textures.len() - 1;
            let ghost pre = current_textures@;
            let t = &mut current_textures[li];
            let r = t.try_append_glyph(key, glyph_bitmap);
            match r {
                Ok(()) => {
                    proof {
                        assert forall|t2: int|
                            0 <= t2 < current_textures@.len() implies (#[trigger] current_textures@[t2]).wf()
                        by {
                            if t2 != li {
                                assert(current_textures@[t2] == pre[t2]);
                            }
                        }
                    }
                    return Ok(li);
                },
                Err(GlyphCacheTextureAppendError::NotEnoughSpace) => {
                    proof {
                        lemma_fresh_alloc(pre[li as int].free_regions(), glyph_bitmap.spec_size());
                        assert(current_textures@ =~= pre);
                    }
                },
            }
        }

        let h: u64 = *next_texture_handle;
        if h < u64::MAX {
            *next_texture_handle = h + 1;
        }
        let fresh = GlyphCacheTexture::new(TextureHandle(h));
        current_textures.push(fresh);
        let li: usize = current_textures.len() - 1;
        let ghost pre = current_textures@;
        let t = &mut current_textures[li];
        let r = t.try_append_glyph(key, glyph_bitmap);
        match r {
            Ok(()) => {
                proof {
                    assert forall|t2: int|
                        0 <= t2 < current_textures@.len() implies (#[trigger] current_textures@[t2]).wf()
                    by {
                        if t2 != li {
                            assert(current_textures@[t2] == pre[t2]);
                        }
                    }
                    lemma_fresh_alloc(pre[li as int].free_regions(), glyph_bitmap.spec_size());
                }
                Ok(li)
            },
            Err(GlyphCacheTextureAppendError::NotEnoughSpace) => {
                proof {
                    lemma_fresh_alloc(pre[li as int].free_regions(), glyph_bitmap.spec_size());
                    assert(current_textures@ =~= pre);
                }
                Err(PrepareForDrawError::GlyphRearrangementFailed)
            },
        }
    }
}

/// The outcome of a successful `prepare_for_draw`: whether a full rebuild
/// ran, and which atlases must now be uploaded to the GPU.
#[derive(Debug, PartialEq, Eq)]
pub struct PrepareReport {
    pub rebuilt: bool,
    pub textures_to_upload: Vec<usize>,
}

impl GlyphCache {
    /// Give every cache entry an atlas placement, rebuilding the atlases
    /// from scratch when incremental placement runs out of room.
    ///
    /// Phase one tries to append each unplaced entry to the existing
    /// atlases. If any entry fits nowhere, phase two clears every atlas,
    /// drops every entry absent from both liveness generations (the only
    /// point where eviction happens), and re-inserts the survivors tallest
    /// first, pulling cleared atlases back from the pool or creating new
    /// ones as needed; at most one cleared spare atlas is kept afterwards.
    /// Finally every atlas's dirty flag is collected and reset: the caller
    /// uploads exactly the listed atlases to the GPU.
    pub fn prepare_for_draw(&mut self) -> (res: Result<PrepareReport, PrepareForDrawError>)
        requires
            old(self).wf(),
        ensures
            final(self).wf(),
            final(self).this_frame_keys() == old(self).this_frame_keys(),
            final(self).last_frame_keys() == old(self).last_frame_keys(),
            forall|k: GlyphCacheKey|
                #[trigger] final(self).has_entry(k) ==> old(self).has_entry(k) && final(self).entry_of(k).bitmap() == old(self).entry_of(k).bitmap() && final(self).entry_of(
                    k,
                ).offset() == old(self).entry_of(k).offset(),
            forall|k: GlyphCacheKey|
                old(self).has_entry(k) && (old(self).this_frame_set().contains(k) || old(self).last_frame_set().contains(k)) ==> #[trigger] final(self).has_entry(k),
            match res {
                Ok(report) => {
                    &&& final(self).fully_placed()
                    &&& (!report.rebuilt ==> forall|k: GlyphCacheKey|
                        #[trigger] final(self).has_entry(k) == old(self).has_entry(k))
                    &&& (report.rebuilt ==> forall|k: GlyphCacheKey|
                        #[trigger] final(self).has_entry(k) == (old(self).has_entry(k) && (old(self).this_frame_set().contains(k) || old(self).last_frame_set().contains(k))))
                    &&& forall|u: int|
                        0 <= u < report.textures_to_upload@.len()
                            ==> #[trigger] report.textures_to_upload@[u] < final(self).textures_seq().len()
                    &&& forall|u: int, v: int|
                        0 <= u < v < report.textures_to_upload@.len()
                            ==> #[trigger] report.textures_to_upload@[u]
                            < #[trigger] report.textures_to_upload@[v]
                    &&& forall|t: int|
                        0 <= t < final(self).textures_seq().len() ==> !(#[trigger] final(self).textures_seq()[t]).spec_invalidated()
                    &&& (report.rebuilt ==> forall|t: int|
                        0 <= t < final(self).textures_seq().len() - 1
                            ==> (#[trigger] final(self).textures_seq()[t]).placements().len() > 0)
                    &&& (report.rebuilt ==> forall|t: int|
                        0 <= t < final(self).textures_seq().len() && (#[trigger] final(self).textures_seq()[t]).placements().len()
                            > 0 ==> report.textures_to_upload@.contains(t as usize))
                    &&& report.rebuilt == !spec_phase1_succeeds(
                        old(self).entries_seq(),
                        spec_atlas_regions(old(self).textures_seq()),
                    )
                    &&& (!report.rebuilt ==> forall|l: int|
                        0 <= l < old(self).entries_seq().len() && (#[trigger] old(self).entries_seq()[l]).1.placed_in() is None
                            ==> final(self).entries_seq()[l].1.placed_in() == (
                        match spec_first_accepting(
                            spec_phase1_regions(
                                old(self).entries_seq(),
                                spec_atlas_regions(old(self).textures_seq()),
                                l,
                            ),
                            old(self).entries_seq()[l].1.bitmap().spec_size(),
                            0,
                        ) {
                            Some(t) => Some(t as usize),
                            None => None::<usize>,
                        }))
                    &&& (report.rebuilt ==> forall|a: int, b: int|
                        0 <= a < b < final(self).entries_seq().len()
                            ==> (#[trigger] final(self).entries_seq()[a]).1.bitmap().spec_size().y
                            >= (#[trigger] final(self).entries_seq()[b]).1.bitmap().spec_size().y)
                    &&& (report.rebuilt ==> forall|t: int, k: GlyphCacheKey|
                        0 <= t < final(self).textures_seq().len()
                            && #[trigger] final(self).textures_seq()[t].has_key(k) ==> final(self).has_entry(k)
                            && final(self).entry_of(k).placed_in() == Some(t as usize))
                    &&& (report.rebuilt && final(self).textures_seq().len() > 0 && final(self).textures_seq()[final(self).textures_seq().len() - 1].placements().len() > 0
                        ==> final(self).textures_seq().len() >= old(self).textures_seq().len())
                },
                Err(e) => {
                    &&& e == PrepareForDrawError::GlyphRearrangementFailed
                    &&& exists|k: GlyphCacheKey|
                        #[trigger] final(self).has_entry(k) && !fits_fresh_atlas(
                            final(self).entry_of(k).bitmap().spec_size(),
                        )
                    &&& forall|k: GlyphCacheKey|
                        #[trigger] final(self).has_entry(k) == (old(self).has_entry(k) && (old(self).this_frame_set().contains(k) || old(self).last_frame_set().contains(k)))
                    &&& !spec_phase1_succeeds(
                        old(self).entries_seq(),
                        spec_atlas_regions(old(self).textures_seq()),
                    )
                    &&& forall|a: int, b: int|
                        0 <= a < b < final(self).entries_seq().len()
                            ==> (#[trigger] final(self).entries_seq()[a]).1.bitmap().spec_size().y
                            >= (#[trigger] final(self).entries_seq()[b]).1.bitmap().spec_size().y
                    &&& forall|t: int, k: GlyphCacheKey|
                        0 <= t < final(self).textures_seq().len()
                            && #[trigger] final(self).textures_seq()[t].has_key(k) ==> final(self).has_entry(k)
                            && final(self).entry_of(k).placed_in() == Some(t as usize)
                },
            },
            (forall|k: GlyphCacheKey|
                #[trigger] old(self).has_entry(k) ==> fits_fresh_atlas(
                    old(self).entry_of(k).bitmap().spec_size(),
                )) ==> res is Ok,
            prepare_transition(old(self).liveness(), final(self).liveness()),
            match res {
                Ok(report) => report.rebuilt ==> rebuild_eviction(
                    old(self).liveness(),
                    final(self).liveness(),
                ),
                Err(_) => rebuild_eviction(old(self).liveness(), final(self).liveness()),
            },
            old(self).fully_placed() ==> match res {
                Ok(report) => {
                    &&& !report.rebuilt
                    &&& final(self).entries_seq() == old(self).entries_seq()
                    &&& final(self).textures_seq().len() == old(self).textures_seq().len()
                    &&& forall|t: int|
                        0 <= t < old(self).textures_seq().len() ==> {
                            &&& (#[trigger] final(self).textures_seq()[t]).spec_texture() == old(self).textures_seq()[t].spec_texture()
                            &&& final(self).textures_seq()[t].placements() == old(self).textures_seq()[t].placements()
                            &&& final(self).textures_seq()[t].bitmap_bytes() == old(self).textures_seq()[t].bitmap_bytes()
                            &&& final(self).textures_seq()[t].free_regions() == old(self).textures_seq()[t].free_regions()
                        }
                    &&& forall|u: int|
                        0 <= u < report.textures_to_upload@.len() ==> old(self).textures_seq()[#[trigger] report.textures_to_upload@[u] as int].spec_invalidated()
                    &&& forall|t: int|
                        0 <= t < old(self).textures_seq().len() && (#[trigger] old(self).textures_seq()[t]).spec_invalidated()
                            ==> report.textures_to_upload@.contains(t as usize)
                },
                Err(_) => false,
            },
    {
        let pending = self.try_insert_pending();
        proof {
            lemma_entries_pointwise_preserved(old(self).cache_entries@, self.cache_entries@);
        }
        let mut rebuilt = false;
        match pending {
            Ok(()) => {},
            Err(_) => {
                rebuilt = true;
                // Not enough space. Rearrange everything!
                let mut taken: Vec<(GlyphCacheKey, GlyphCacheEntry)> = Vec::new();
                core::mem::swap(&mut self.cache_entries, &mut taken);
                let ghost orig = taken@;

                // Drop what neither generation has used, unplace the rest.
                let mut survivors: Vec<(GlyphCacheKey, GlyphCacheEntry)> = Vec::new();
                while taken.len() > 0
                    invariant
                        self.this_frame@ == old(self).this_frame@,
                        self.last_frame@ == old(self).last_frame@,
                        self.cache_entries@.len() == 0,
                        all_textures_wf(self.textures@),
                        unique_keys(orig),
                        all_entries_wf(orig),
                        taken@ == orig.skip(orig.len() - taken@.len()),
                        taken@.len() <= orig.len(),
                        unique_keys(survivors@),
                        all_entries_wf(survivors@),
                        forall|k: GlyphCacheKey|
                            #[trigger] assoc_has(survivors@, k) == (assoc_has(
                                orig.take(orig.len() - taken@.len()),
                                k,
                            ) && (self.last_frame@.contains(k) || self.this_frame@.contains(k))),
                        forall|k: GlyphCacheKey|
                            #[trigger] assoc_has(survivors@, k) ==> assoc_has(orig, k) && assoc_at(
                                survivors@,
                                k,
                            ).bitmap() == assoc_at(orig, k).bitmap() && assoc_at(
                                survivors@,
                                k,
                            ).offset() == assoc_at(orig, k).offset() && assoc_at(
                                survivors@,
                                k,
                            ).placed_in() is None,
                    decreases taken@.len(),
                {
                    let ghost m: int = orig.len() - taken@.len();
                    let kv = taken.remove(0);
                    let k = kv.0;
                    let mut e = kv.1;
                    proof {
                        assert(kv == orig[m]);
                        assert(taken@ =~= orig.skip(m + 1));
                        assert(orig.take(m + 1) =~= orig.take(m).push(orig[m]));
                    }
                    let live_now = frame_contains(&self.last_frame, &k) || frame_contains(
                        &self.this_frame,
                        &k,
                    );
                    if live_now {
                        e.texture_id = None;
                        let ghost pre_surv = survivors@;
                        survivors.push((k, e));
                        proof {
                            if assoc_has(pre_surv, k) {
                                let j = choose|j: int|
                                    0 <= j < orig.take(m).len() && (#[trigger] orig.take(m)[j]).0
                                        == k;
                                assert(orig[j].0 == orig[m].0);
                                assert(false);
                            }
                            lemma_assoc_push(pre_surv, survivors@[pre_surv.len() as int]);
                            lemma_assoc_at_index(orig, k, m);
                            lemma_assoc_at_index(
                                survivors@,
                                k,
                                survivors@.len() - 1,
                            );
                            assert forall|k2: GlyphCacheKey| #[trigger] assoc_has(survivors@, k2)
                                == (assoc_has(orig.take(m + 1), k2) && (self.last_frame@.contains(
                                k2,
                            ) || self.this_frame@.contains(k2))) by {
                                if k2 != k {
                                    if assoc_has(orig.take(m + 1), k2) {
                                        let j = choose|j: int|
                                            0 <= j < orig.take(m + 1).len() && (#[trigger] orig.take(
                                                m + 1,
                                            )[j]).0 == k2;
                                        assert(j < m);
                                        assert(orig.take(m)[j].0 == k2);
                                    }
                                    if assoc_has(orig.take(m), k2) {
                                        let j = choose|j: int|
                                            0 <= j < orig.take(m).len() && (#[trigger] orig.take(
                                                m,
                                            )[j]).0 == k2;
                                        assert(orig.take(m + 1)[j].0 == k2);
                                    }
                                } else {
                                    assert(orig.take(m + 1)[m as int].0 == k);
                                }
                            }
                        }
                    } else {
                        proof {
                            assert forall|k2: GlyphCacheKey| #[trigger] assoc_has(survivors@, k2)
                                == (assoc_has(orig.take(m + 1), k2) && (self.last_frame@.contains(
                                k2,
                            ) || self.this_frame@.contains(k2))) by {
                                if k2 != k {
                                    if assoc_has(orig.take(m + 1), k2) {
                                        let j = choose|j: int|
                                            0 <= j < orig.take(m + 1).len() && (#[trigger] orig.take(
                                                m + 1,
                                            )[j]).0 == k2;
                                        assert(j < m);
                                        assert(orig.take(m)[j].0 == k2);
                                    }
                                    if assoc_has(orig.take(m), k2) {
                                        let j = choose|j: int|
                                            0 <= j < orig.take(m).len() && (#[trigger] orig.take(
                                                m,
                                            )[j]).0 == k2;
                                        assert(orig.take(m + 1)[j].0 == k2);
                                    }
                                } else {
                                    if assoc_has(survivors@, k) {
                                        assert(assoc_has(orig.take(m), k));
                                        let j = choose|j: int|
                                            0 <= j < orig.take(m).len() && (#[trigger] orig.take(
                                                m,
                                            )[j]).0 == k;
                                        assert(orig[j].0 == orig[m].0);
                                        assert(false);
                                    }
                                }
                            }
                        }
                    }
                }
                proof {
                    assert(orig.take(orig.len() - taken@.len()) =~= orig);
                }
                let ghost surv0 = survivors@;

                // Sort entries by height, insert in height order.
                let mut sorted = GlyphCache::sort_entries_by_height_desc(survivors);
                let ghost sorted0 = sorted@;
                proof {
                    assert forall|m2: int| 0 <= m2 < sorted0.len() implies (#[trigger] sorted0[m2]).1.placed_in() is None by {
                        lemma_assoc_at_index(sorted0, sorted0[m2].0, m2);
                    }
                    // Relate the sorted survivors to the cache as it stood on
                    // entry: the surviving keys are exactly the live cached
                    // keys, with their rasterizations intact.
                    assert forall|k: GlyphCacheKey| #[trigger] assoc_has(sorted0, k) == (old(
                        self,
                    ).has_entry(k) && (old(self).this_frame_set().contains(k) || old(
                        self,
                    ).last_frame_set().contains(k))) by {
                        assert(assoc_has(sorted0, k) == assoc_has(surv0, k));
                        assert(assoc_has(orig, k) == assoc_has(old(self).cache_entries@, k));
                        assert(old(self).this_frame_set().contains(k) == old(
                            self,
                        ).this_frame@.contains(k));
                        assert(old(self).last_frame_set().contains(k) == old(
                            self,
                        ).last_frame@.contains(k));
                    }
                    assert forall|k: GlyphCacheKey|
                        #[trigger] assoc_has(sorted0, k) implies assoc_at(sorted0, k).bitmap()
                        == old(self).entry_of(k).bitmap() && assoc_at(sorted0, k).offset() == old(
                        self,
                    ).entry_of(k).offset() by {
                        assert(assoc_has(surv0, k));
                        assert(assoc_at(sorted0, k) == assoc_at(surv0, k));
                        assert(assoc_at(surv0, k).bitmap() == assoc_at(orig, k).bitmap());
                        assert(assoc_has(old(self).cache_entries@, k));
                        assert(assoc_at(orig, k).bitmap() == assoc_at(
                            old(self).cache_entries@,
                            k,
                        ).bitmap());
                    }
                    assert(!old(self).fully_placed());
                }

                let mut cleared: Vec<GlyphCacheTexture> = Vec::new();
                core::mem::swap(&mut self.textures, &mut cleared);

                let cn: usize = cleared.len();
                let mut ci: usize = 0;
                while ci < cn
                    invariant
                        cn == cleared@.len(),
                        ci <= cn,
                        all_textures_wf(cleared@),
                        forall|p: int| 0 <= p < ci ==> (#[trigger] cleared@[p]).is_cleared(),
                    decreases cn - ci,
                {
                    let ghost pre = cleared@;
                    let t = &mut cleared[ci];
                    t.clear();
                    proof {
                        assert forall|p: int|
                            0 <= p < cleared@.len() implies (#[trigger] cleared@[p]).wf() by {
                            if p != ci {
                                assert(cleared@[p] == pre[p]);
                            }
                        }
                        assert forall|p: int|
                            0 <= p < ci + 1 implies (#[trigger] cleared@[p]).is_cleared() by {
                            if p != ci {
                                assert(cleared@[p] == pre[p]);
                            }
                        }
                    }
                    ci = ci + 1;
                }

                let sn: usize = sorted.len();
                let mut si: usize = 0;
                while si < sn
                    invariant
                        old(self).wf(),
                        sn == sorted@.len(),
                        sn == sorted0.len(),
                        si <= sn,
                        self.this_frame@ == old(self).this_frame@,
                        self.last_frame@ == old(self).last_frame@,
                        self.cache_entries@.len() == 0,
                        forall|l: int|
                            0 <= l < sn ==> (#[trigger] sorted@[l]).0 == sorted0[l].0
                                && sorted@[l].1.bitmap() == sorted0[l].1.bitmap()
                                && sorted@[l].1.offset() == sorted0[l].1.offset(),
                        unique_keys(sorted@),
                        unique_keys(sorted0),
                        all_entries_wf(sorted@),
                        forall|m2: int|
                            0 <= m2 < si ==> (#[trigger] sorted@[m2]).1.placed_in() is Some,
                        placements_consistent(sorted@, self.textures@),
                        placements_hold_bitmaps(sorted@, self.textures@),
                        all_textures_wf(self.textures@),
                        all_textures_wf(cleared@),
                        forall|p: int| 0 <= p < cleared@.len() ==> (#[trigger] cleared@[p]).is_cleared(),
                        forall|t2: int|
                            0 <= t2 < self.textures@.len()
                                ==> (#[trigger] self.textures@[t2]).placements().len() > 0,
                        forall|t2: int|
                            0 <= t2 < self.textures@.len() && (#[trigger] self.textures@[t2]).placements().len()
                                > 0 ==> self.textures@[t2].spec_invalidated(),
                        forall|k: GlyphCacheKey|
                            #[trigger] assoc_has(sorted0, k) == (old(self).has_entry(k) && (old(
                                self,
                            ).this_frame_set().contains(k) || old(self).last_frame_set().contains(
                                k,
                            ))),
                        forall|k: GlyphCacheKey|
                            #[trigger] assoc_has(sorted0, k) ==> assoc_at(sorted0, k).bitmap()
                                == old(self).entry_of(k).bitmap() && assoc_at(sorted0, k).offset()
                                == old(self).entry_of(k).offset(),
                        !old(self).fully_placed(),
                        !spec_phase1_succeeds(
                            old(self).entries_seq(),
                            spec_atlas_regions(old(self).textures_seq()),
                        ),
                        self.textures@.len() + cleared@.len() >= old(self).textures@.len(),
                        forall|a: int, b: int|
                            0 <= a < b < sn ==> (#[trigger] sorted0[a]).1.bitmap().spec_size().y
                                >= (#[trigger] sorted0[b]).1.bitmap().spec_size().y,
                        forall|t2: int, k: GlyphCacheKey|
                            0 <= t2 < self.textures@.len()
                                && #[trigger] self.textures@[t2].has_key(k) ==> exists|m: int|
                                0 <= m < si && (#[trigger] sorted@[m]).0 == k
                                    && sorted@[m].1.placed_in() == Some(t2 as usize),
                    decreases sn - si,
                {
                    let key = sorted[si].0;
                    let ghost pre_sorted = sorted@;
                    let ghost pre_textures = self.textures@;
                    let r = GlyphCache::internal_rearrange_append_glyph(
                        &mut self.textures,
                        &mut cleared,
                        &mut self.next_texture_handle,
                        &key,
                        &sorted[si].1.glyph_bitmap,
                    );
                    match r {
                        Ok(t) => {
                            let e = &mut sorted[si];
                            e.1.texture_id = Some(t);
                            proof {
                                reveal(entry_placed_exactly);
                                assert forall|t2: int|
                                    0 <= t2 < self.textures@.len() implies (#[trigger] self.textures@[t2]).placements().len()
                                    > 0 by {
                                    if t2 != t {
                                        assert(self.textures@[t2] == pre_textures[t2]);
                                    } else {
                                        assert(self.textures@[t2].has_key(key));
                                        let j = choose|j: int|
                                            0 <= j < self.textures@[t2].placements().len() && (
                                            #[trigger] self.textures@[t2].placements()[j]).0
                                                == key;
                                    }
                                }
                                assert forall|t2: int, k: GlyphCacheKey|
                                    0 <= t2 < self.textures@.len()
                                        && #[trigger] self.textures@[t2].has_key(k) implies exists|
                                    m: int,
                                |
                                    0 <= m < si + 1 && (#[trigger] sorted@[m]).0 == k
                                        && sorted@[m].1.placed_in() == Some(t2 as usize) by {
                                    if t2 == t {
                                        if k == key {
                                            assert(sorted@[si as int].0 == k
                                                && sorted@[si as int].1.placed_in() == Some(
                                                t2 as usize,
                                            ));
                                        } else {
                                            assert(t2 < pre_textures.len());
                                            assert(pre_textures[t2].has_key(k));
                                            let m = choose|m: int|
                                                0 <= m < si && (#[trigger] pre_sorted[m]).0 == k
                                                    && pre_sorted[m].1.placed_in() == Some(
                                                    t2 as usize,
                                                );
                                            assert(sorted@[m] == pre_sorted[m]);
                                        }
                                    } else if t2 < pre_textures.len() {
                                        assert(self.textures@[t2] == pre_textures[t2]);
                                        assert(pre_textures[t2].has_key(k));
                                        let m = choose|m: int|
                                            0 <= m < si && (#[trigger] pre_sorted[m]).0 == k
                                                && pre_sorted[m].1.placed_in() == Some(
                                                t2 as usize,
                                            );
                                        assert(sorted@[m] == pre_sorted[m]);
                                    }
                                }
                                assert forall|a: int, b: int|
                                    0 <= a < b < sorted@.len() implies (#[trigger] sorted@[a]).0
                                    != (#[trigger] sorted@[b]).0 by {
                                    assert(pre_sorted[a].0 != pre_sorted[b].0);
                                }
                                assert forall|l: int|
                                    0 <= l < sorted@.len() implies (#[trigger] sorted@[l]).1.wf()
                                by {
                                    assert(pre_sorted[l].1.wf());
                                }
                                assert forall|m2: int|
                                    0 <= m2 < sorted@.len() implies match (#[trigger] sorted@[m2]).1.placed_in() {
                                    None => true,
                                    Some(t2) => t2 < self.textures@.len()
                                        && self.textures@[t2 as int].has_key(sorted@[m2].0),
                                } by {
                                    if m2 != si {
                                        assert(sorted@[m2] == pre_sorted[m2]);
                                        match pre_sorted[m2].1.placed_in() {
                                            None => {},
                                            Some(t2) => {
                                                assert(pre_sorted[m2].0 != key);
                                                if t2 != t {
                                                    assert(self.textures@[t2 as int]
                                                        == pre_textures[t2 as int]);
                                                } else {
                                                    assert(self.textures@[t as int].has_key(
                                                        pre_sorted[m2].0,
                                                    ) == pre_textures[t as int].has_key(
                                                        pre_sorted[m2].0,
                                                    ));
                                                }
                                            },
                                        }
                                    }
                                }
                                assert forall|m2: int|
                                    0 <= m2 < sorted@.len() implies match (#[trigger] sorted@[m2]).1.placed_in() {
                                    None => true,
                                    Some(t2) => t2 < self.textures@.len() && entry_placed_exactly(
                                        sorted@[m2],
                                        self.textures@[t2 as int],
                                    ),
                                } by {
                                    if m2 == si {
                                        assert(sorted@[si as int].1.bitmap()
                                            == pre_sorted[si as int].1.bitmap());
                                    } else {
                                        assert(sorted@[m2] == pre_sorted[m2]);
                                        match pre_sorted[m2].1.placed_in() {
                                            None => {},
                                            Some(t2) => {
                                                assert(entry_placed_exactly(
                                                    pre_sorted[m2],
                                                    pre_textures[t2 as int],
                                                ));
                                                if t2 != t {
                                                    assert(self.textures@[t2 as int]
                                                        == pre_textures[t2 as int]);
                                                } else {
                                                    let k2 = pre_sorted[m2].0;
                                                    assert(k2 != key);
                                                    assert(pre_textures[t as int].has_key(k2));
                                                    assert(self.textures@[t as int].rect_of(k2)
                                                        == pre_textures[t as int].rect_of(k2));
                                                    let w_rect = pre_textures[t as int].rect_of(
                                                        k2,
                                                    );
                                                    let new_rect = self.textures@[t as int].rect_of(
                                                        key,
                                                    );
                                                    lemma_atlas_rects_disjoint(
                                                        self.textures@[t as int],
                                                        k2,
                                                        key,
                                                    );
                                                    let dims = pre_sorted[m2].1.bitmap().spec_size();
                                                    assert forall|x: int, y: int, c: int|
                                                        0 <= x < dims.x && 0 <= y < dims.y && 0
                                                            <= c < 4 implies self.textures@[t as int].bitmap_bytes()[#[trigger] byte_index(
                                                        CACHE_TEXTURE_SIZE as int,
                                                        w_rect.top_left.x + x,
                                                        w_rect.top_left.y + y,
                                                        c,
                                                    )] == pre_sorted[m2].1.bitmap().byte_at(
                                                        x,
                                                        y,
                                                        c,
                                                    ) by {
                                                        assert(w_rect.spec_contains_pixel(
                                                            w_rect.top_left.x + x,
                                                            w_rect.top_left.y + y,
                                                        ));
                                                        lemma_disjoint_no_common_pixel(
                                                            w_rect,
                                                            new_rect,
                                                            w_rect.top_left.x + x,
                                                            w_rect.top_left.y + y,
                                                        );
                                                    }
                                                }
                                            },
                                        }
                                    }
                                }
                            }
                        },
                        Err(err) => {
                            self.cache_entries = sorted;
                            proof {
                                lemma_entries_pointwise_preserved(sorted0, self.cache_entries@);
                                assert forall|k: GlyphCacheKey| #[trigger] self.has_entry(k) == (
                                old(self).has_entry(k) && (old(self).this_frame_set().contains(k)
                                    || old(self).last_frame_set().contains(k))) by {
                                    assert(assoc_has(self.cache_entries@, k) == assoc_has(
                                        sorted0,
                                        k,
                                    ));
                                }
                                assert forall|k: GlyphCacheKey| #[trigger] self.has_entry(k)
                                    implies old(self).has_entry(k) && self.entry_of(k).bitmap()
                                    == old(self).entry_of(k).bitmap() && self.entry_of(k).offset()
                                    == old(self).entry_of(k).offset() by {
                                    assert(assoc_has(sorted0, k));
                                    assert(assoc_at(self.cache_entries@, k).bitmap() == assoc_at(
                                        sorted0,
                                        k,
                                    ).bitmap());
                                }
                                let wk = sorted0[si as int].0;
                                lemma_assoc_at_index(sorted0, wk, si as int);
                                lemma_assoc_at_index(self.cache_entries@, wk, si as int);
                                assert(self.has_entry(wk) && !fits_fresh_atlas(
                                    self.entry_of(wk).bitmap().spec_size(),
                                ));
                                assert(old(self).has_entry(wk) && !fits_fresh_atlas(
                                    old(self).entry_of(wk).bitmap().spec_size(),
                                ));
                                assert forall|a: int, b: int|
                                    0 <= a < b < self.cache_entries@.len() implies (
                                #[trigger] self.cache_entries@[a]).1.bitmap().spec_size().y
                                    >= (#[trigger] self.cache_entries@[b]).1.bitmap().spec_size().y by {
                                    assert(self.cache_entries@[a].1.bitmap()
                                        == sorted0[a].1.bitmap());
                                    assert(self.cache_entries@[b].1.bitmap()
                                        == sorted0[b].1.bitmap());
                                }
                                assert forall|t2: int, k: GlyphCacheKey|
                                    0 <= t2 < self.textures@.len()
                                        && #[trigger] self.textures@[t2].has_key(k) implies self.has_entry(
                                    k,
                                ) && self.entry_of(k).placed_in() == Some(t2 as usize) by {
                                    if t2 < pre_textures.len() {
                                        assert(self.textures@[t2] == pre_textures[t2]);
                                        assert(pre_textures[t2].has_key(k));
                                        let m = choose|m: int|
                                            0 <= m < si && (#[trigger] pre_sorted[m]).0 == k
                                                && pre_sorted[m].1.placed_in() == Some(
                                                t2 as usize,
                                            );
                                        assert(self.cache_entries@[m] == pre_sorted[m]);
                                        lemma_assoc_at_index(self.cache_entries@, k, m);
                                    } else {
                                        assert(self.textures@[t2].is_cleared());
                                        assert(self.textures@[t2].placements().len() == 0);
                                    }
                                }
                            }
                            return Err(err);
                        },
                    }
                    si = si + 1;
                }
                self.cache_entries = sorted;
                proof {
                    lemma_entries_pointwise_preserved(sorted0, self.cache_entries@);
                    assert(all_placed(self.cache_entries@));
                    assert forall|a: int, b: int|
                        0 <= a < b < self.cache_entries@.len() implies (#[trigger] self.cache_entries@[a]).1.bitmap().spec_size().y
                        >= (#[trigger] self.cache_entries@[b]).1.bitmap().spec_size().y by {
                        assert(self.cache_entries@[a].1.bitmap() == sorted0[a].1.bitmap());
                        assert(self.cache_entries@[b].1.bitmap() == sorted0[b].1.bitmap());
                    }
                    assert forall|t2: int, k: GlyphCacheKey|
                        0 <= t2 < self.textures@.len() && #[trigger] self.textures@[t2].has_key(k)
                        implies self.has_entry(k) && self.entry_of(k).placed_in() == Some(
                        t2 as usize,
                    ) by {
                        let m = choose|m: int|
                            0 <= m < self.cache_entries@.len()
                                && (#[trigger] self.cache_entries@[m]).0 == k
                                && self.cache_entries@[m].1.placed_in() == Some(t2 as usize);
                        lemma_assoc_at_index(self.cache_entries@, k, m);
                    }
                    assert forall|k: GlyphCacheKey| #[trigger] self.has_entry(k) == (old(
                        self,
                    ).has_entry(k) && (old(self).this_frame_set().contains(k) || old(
                        self,
                    ).last_frame_set().contains(k))) by {
                        assert(assoc_has(self.cache_entries@, k) == assoc_has(sorted0, k));
                    }
                    assert forall|k: GlyphCacheKey| #[trigger] self.has_entry(k) implies old(
                        self,
                    ).has_entry(k) && self.entry_of(k).bitmap() == old(self).entry_of(k).bitmap()
                        && self.entry_of(k).offset() == old(self).entry_of(k).offset() by {
                        assert(assoc_has(sorted0, k));
                        assert(assoc_at(self.cache_entries@, k).bitmap() == assoc_at(
                            sorted0,
                            k,
                        ).bitmap());
                    }
                }

                // Delete all but one spare texture. At most the kept spare
                // is empty: every other atlas holds at least one glyph.
                match cleared.pop() {
                    Some(tex) => {
                        let ghost pre_textures = self.textures@;
                        self.textures.push(tex);
                        proof {
                            assert forall|t2: int|
                                0 <= t2 < self.textures@.len() - 1 implies (#[trigger] self.textures@[t2]).placements().len()
                                > 0 by {
                                assert(self.textures@[t2] == pre_textures[t2]);
                            }
                            assert forall|t2: int|
                                0 <= t2 < self.textures@.len() && (#[trigger] self.textures@[t2]).placements().len()
                                > 0 implies self.textures@[t2].spec_invalidated() by {
                                if t2 < pre_textures.len() {
                                    assert(self.textures@[t2] == pre_textures[t2]);
                                }
                            }
                        }
                        proof {
                            assert forall|t2: int|
                                0 <= t2 < self.textures@.len() implies (#[trigger] self.textures@[t2]).wf()
                            by {
                                if t2 < pre_textures.len() {
                                    assert(self.textures@[t2] == pre_textures[t2]);
                                }
                            }
                            assert forall|m2: int|
                                0 <= m2 < self.cache_entries@.len() implies match (
                            #[trigger] self.cache_entries@[m2]).1.placed_in() {
                                None => true,
                                Some(t2) => t2 < self.textures@.len()
                                    && self.textures@[t2 as int].has_key(self.cache_entries@[m2].0),
                            } by {
                                match self.cache_entries@[m2].1.placed_in() {
                                    None => {},
                                    Some(t2) => {
                                        assert(self.textures@[t2 as int] == pre_textures[t2 as int]);
                                    },
                                }
                            }
                            assert forall|t2: int, k: GlyphCacheKey|
                                0 <= t2 < self.textures@.len()
                                    && #[trigger] self.textures@[t2].has_key(k) implies self.has_entry(
                                k,
                            ) && self.entry_of(k).placed_in() == Some(t2 as usize) by {
                                if t2 < pre_textures.len() {
                                    assert(self.textures@[t2] == pre_textures[t2]);
                                    assert(pre_textures[t2].has_key(k));
                                } else {
                                    assert(self.textures@[t2].is_cleared());
                                    assert(self.textures@[t2].placements().len() == 0);
                                }
                            }
                            assert forall|m2: int|
                                0 <= m2 < self.cache_entries@.len() implies match (
                            #[trigger] self.cache_entries@[m2]).1.placed_in() {
                                None => true,
                                Some(t2) => t2 < self.textures@.len() && entry_placed_exactly(
                                    self.cache_entries@[m2],
                                    self.textures@[t2 as int],
                                ),
                            } by {
                                match self.cache_entries@[m2].1.placed_in() {
                                    None => {},
                                    Some(t2) => {
                                        assert(self.textures@[t2 as int] == pre_textures[t2 as int]);
                                        assert(entry_placed_exactly(
                                            self.cache_entries@[m2],
                                            pre_textures[t2 as int],
                                        ));
                                    },
                                }
                            }
                        }
                    },
                    None => {},
                }
                proof {
                    assert(self.textures@.len() >= old(self).textures@.len() || (
                    self.textures@.len() > 0 && self.textures@[self.textures@.len()
                        - 1].placements().len() == 0));
                }
            },
        }

        // Push dirty atlas bitmaps to the GPU: collect and reset each
        // atlas's dirty flag, in index order.
        let ghost snap = self.textures@;
        let ghost entries_snap = self.cache_entries@;
        let mut textures_to_upload: Vec<usize> = Vec::new();
        let tn: usize = self.textures.len();
        let mut ti: usize = 0;
        while ti < tn
            invariant
                tn == self.textures@.len(),
                ti <= tn,
                snap.len() == tn,
                self.cache_entries@ == entries_snap,
                self.this_frame@ == old(self).this_frame@,
                self.last_frame@ == old(self).last_frame@,
                all_textures_wf(self.textures@),
                placements_consistent(self.cache_entries@, snap),
                forall|t2: int|
                    0 <= t2 < tn ==> {
                        &&& (#[trigger] self.textures@[t2]).spec_texture() == snap[t2].spec_texture()
                        &&& self.textures@[t2].placements() == snap[t2].placements()
                        &&& self.textures@[t2].bitmap_bytes() == snap[t2].bitmap_bytes()
                        &&& self.textures@[t2].free_regions() == snap[t2].free_regions()
                        &&& (t2 >= ti ==> self.textures@[t2].spec_invalidated()
                            == snap[t2].spec_invalidated())
                        &&& (t2 < ti ==> !self.textures@[t2].spec_invalidated())
                    },
                forall|u: int|
                    0 <= u < textures_to_upload@.len() ==> #[trigger] textures_to_upload@[u] < ti,
                forall|u: int, v: int|
                    0 <= u < v < textures_to_upload@.len() ==> #[trigger] textures_to_upload@[u]
                        < #[trigger] textures_to_upload@[v],
                forall|u: int|
                    0 <= u < textures_to_upload@.len() ==> snap[#[trigger] textures_to_upload@[u] as int].spec_invalidated(),
                forall|t2: int|
                    0 <= t2 < ti && (#[trigger] snap[t2]).spec_invalidated()
                        ==> textures_to_upload@.contains(t2 as usize),
            decreases tn - ti,
        {
            let ghost pre = self.textures@;
            let ghost pre_uploads = textures_to_upload@;
            let t = &mut self.textures[ti];
            let needs_upload = t.revalidate();
            if needs_upload {
                textures_to_upload.push(ti);
            }
            proof {
                assert forall|t2: int|
                    0 <= t2 < self.textures@.len() implies (#[trigger] self.textures@[t2]).wf() by {
                    if t2 != ti {
                        assert(self.textures@[t2] == pre[t2]);
                    }
                }
                if needs_upload {
                    assert forall|t2: int|
                        0 <= t2 < ti + 1 && (#[trigger] snap[t2]).spec_invalidated() implies textures_to_upload@.contains(
                        t2 as usize,
                    ) by {
                        if t2 < ti {
                            assert(pre_uploads.contains(t2 as usize));
                            let u = choose|u: int|
                                0 <= u < pre_uploads.len() && pre_uploads[u] == t2 as usize;
                            assert(textures_to_upload@[u] == t2 as usize);
                        } else {
                            assert(textures_to_upload@[textures_to_upload@.len() - 1] == ti);
                        }
                    }
                } else {
                    assert forall|t2: int|
                        0 <= t2 < ti + 1 && (#[trigger] snap[t2]).spec_invalidated() implies textures_to_upload@.contains(
                        t2 as usize,
                    ) by {
                        assert(t2 < ti);
                    }
                }
            }
            ti = ti + 1;
        }

        proof {
            assert forall|m2: int|
                0 <= m2 < self.cache_entries@.len() implies match (#[trigger] self.cache_entries@[m2]).1.placed_in() {
                None => true,
                Some(t2) => t2 < self.textures@.len() && self.textures@[t2 as int].has_key(
                    self.cache_entries@[m2].0,
                ),
            } by {
                match self.cache_entries@[m2].1.placed_in() {
                    None => {},
                    Some(t2) => {
                        assert(self.textures@[t2 as int].placements() == snap[t2 as int].placements());
                    },
                }
            }
            assert forall|m2: int|
                0 <= m2 < self.cache_entries@.len() implies match (#[trigger] self.cache_entries@[m2]).1.placed_in() {
                None => true,
                Some(t2) => t2 < self.textures@.len() && entry_placed_exactly(
                    self.cache_entries@[m2],
                    self.textures@[t2 as int],
                ),
            } by {
                reveal(entry_placed_exactly);
                match self.cache_entries@[m2].1.placed_in() {
                    None => {},
                    Some(t2) => {
                        assert(entry_placed_exactly(entries_snap[m2], snap[t2 as int]));
                        assert(self.textures@[t2 as int].placements() == snap[t2 as int].placements());
                        assert(self.textures@[t2 as int].bitmap_bytes() == snap[t2 as int].bitmap_bytes());
                    },
                }
            }
            if rebuilt {
                assert forall|t2: int|
                    0 <= t2 < self.textures@.len() - 1 implies (#[trigger] self.textures@[t2]).placements().len()
                    > 0 by {
                    assert(self.textures@[t2].placements() == snap[t2].placements());
                }
                assert forall|t2: int|
                    0 <= t2 < self.textures@.len() && (#[trigger] self.textures@[t2]).placements().len()
                    > 0 implies textures_to_upload@.contains(t2 as usize) by {
                    assert(self.textures@[t2].placements() == snap[t2].placements());
                    assert(snap[t2].spec_invalidated());
                }
                assert forall|t2: int, k: GlyphCacheKey|
                    0 <= t2 < self.textures@.len() && #[trigger] self.textures@[t2].has_key(k)
                    implies self.has_entry(k) && self.entry_of(k).placed_in() == Some(t2 as usize)
                by {
                    assert(self.textures@[t2].placements() == snap[t2].placements());
                    assert(snap[t2].has_key(k));
                }
                if self.textures@.len() > 0 && self.textures@[self.textures@.len()
                    - 1].placements().len() > 0 {
                    assert(snap[snap.len() - 1].placements() == self.textures@[self.textures@.len()
                        - 1].placements());
                    assert(self.textures@.len() >= old(self).textures@.len());
                }
            }
        }

        Ok(PrepareReport { rebuilt, textures_to_upload })
    }
}

impl GlyphCache {
    /// The draw primitives for one glyph at one position: none when the
    /// glyph has no cache entry (valid for invisible glyphs such as spaces),
    /// none when a crop window leaves nothing of its screen rectangle, and
    /// otherwise two clockwise triangles covering the (possibly cropped)
    /// screen rectangle, each vertex carrying its atlas-pixel texture
    /// coordinate and the given flat colour. Placements must be current:
    /// call this only after `prepare_for_draw` has succeeded.
    pub fn get_renderer2d_actions<C: Copy>(
        &self,
        font_id: usize,
        glyph_id: GlyphId,
        scale_millipixels: i32,
        position_millipixels: IVec2,
        color: C,
        crop_window: Option<&IRect>,
    ) -> (actions: Vec<Renderer2DAction<C>>)
        requires
            self.wf(),
            self.fully_placed(),
            -MAX_MILLIPIXELS <= scale_millipixels <= MAX_MILLIPIXELS,
            -MAX_MILLIPIXELS <= position_millipixels.x <= MAX_MILLIPIXELS,
            -MAX_MILLIPIXELS <= position_millipixels.y <= MAX_MILLIPIXELS,
        ensures
            ({
                let key = spec_key_from(
                    font_id,
                    glyph_id,
                    scale_millipixels as int,
                    position_millipixels.x as int,
                    position_millipixels.y as int,
                );
                if !self.has_entry(key) {
                    actions@.len() == 0
                } else {
                    let entry = self.entry_of(key);
                    let tid = match entry.placed_in() {
                        Some(t) => t as int,
                        None => 0,
                    };
                    let handle = self.textures_seq()[tid].spec_texture();
                    let area = self.textures_seq()[tid].rect_of(key);
                    let sr = spec_screen_region(position_millipixels, entry.offset(), area);
                    match crop_window {
                        None => actions@ == spec_glyph_triangles(handle, sr, area, color),
                        Some(cw) => match spec_crop_to_window(sr, area, *cw) {
                            None => actions@.len() == 0,
                            Some(pr) => {
                                &&& actions@ == spec_glyph_triangles(handle, pr.0, pr.1, color)
                                // The placement has the screen rectangle's
                                // pixel size, so the proportional texture
                                // shrink is exact: each texture edge moves
                                // by precisely the clipped pixel amount.
                                &&& pr.1.top_left.x == area.top_left.x + (pr.0.top_left.x
                                    - sr.top_left.x)
                                &&& pr.1.top_left.y == area.top_left.y + (pr.0.top_left.y
                                    - sr.top_left.y)
                                &&& pr.1.bottom_right.x == area.bottom_right.x - (
                                sr.bottom_right.x - pr.0.bottom_right.x)
                                &&& pr.1.bottom_right.y == area.bottom_right.y - (
                                sr.bottom_right.y - pr.0.bottom_right.y)
                            },
                        },
                    }
                }
            }),
    {
        let key = GlyphCacheKey::from_position(
            font_id,
            glyph_id,
            scale_millipixels,
            position_millipixels.x,
            position_millipixels.y,
        );

        let entry_idx = match assoc_find(&self.cache_entries, &key) {
            None => {
                // This is valid for many glyphs, e.g. space
                return Vec::new();
            },
            Some(i) => i,
        };
        proof {
            lemma_assoc_at_index(self.cache_entries@, key, entry_idx as int);
        }
        let entry = &self.cache_entries[entry_idx].1;
        let texture_id: usize = match entry.texture_id {
            Some(t) => t,
            None => {
                proof {
                    assert(false);
                }
                return Vec::new();
            },
        };

        let texture_cache = &self.textures[texture_id];
        let texture_area = match texture_cache.lookup(&key) {
            Some(r) => r,
            None => {
                proof {
                    assert(false);
                }
                return Vec::new();
            },
        };

        // We round the position here as the offset is between -0.5 and 0.5
        let px: i32 = crate::quantize::round_to_pixels(position_millipixels.x);
        let py: i32 = crate::quantize::round_to_pixels(position_millipixels.y);
        let sx: i32 = px + entry.bounding_box_offset.x;
        let sy: i32 = py + entry.bounding_box_offset.y;
        let w: u32 = texture_area.width();
        let h: u32 = texture_area.height();
        let mut screen_region = IRect::new(
            IVec2::new(sx, sy),
            IVec2::new(sx + (w as i32), sy + (h as i32)),
        );
        let mut texture_region = texture_area;

        match crop_window {
            Some(cw) => {
                proof {
                    lemma_crop_exact_for_matching_sizes(screen_region, texture_region, *cw);
                }
                match crop_to_window(screen_region, texture_region, *cw) {
                    None => {
                        return Vec::new();
                    },
                    Some(pair) => {
                        screen_region = pair.0;
                        texture_region = pair.1;
                    },
                }
            },
            None => {},
        }

        let tl = Renderer2DVertex {
            position: screen_region.top_left,
            texture_coord: texture_region.top_left,
            color,
        };
        let tr = Renderer2DVertex {
            position: IVec2::new(screen_region.bottom_right.x, screen_region.top_left.y),
            texture_coord: UVec2::new(texture_region.bottom_right.x, texture_region.top_left.y),
            color,
        };
        let br = Renderer2DVertex {
            position: screen_region.bottom_right,
            texture_coord: texture_region.bottom_right,
            color,
        };
        let bl = Renderer2DVertex {
            position: IVec2::new(screen_region.top_left.x, screen_region.bottom_right.y),
            texture_coord: UVec2::new(texture_region.top_left.x, texture_region.bottom_right.y),
            color,
        };

        let mut actions: Vec<Renderer2DAction<C>> = Vec::new();
        actions.push(
            Renderer2DAction {
                texture: texture_cache.texture(),
                vertices_clockwise: [tl, tr, br],
            },
        );
        actions.push(
            Renderer2DAction {
                texture: texture_cache.texture(),
                vertices_clockwise: [br, bl, tl],
            },
        );
        actions
    }
}

impl GlyphCache {
    /// The number of atlases currently held.
    pub fn texture_count(&self) -> (r: usize)
        ensures
            r == self.textures_seq().len(),
    {
        self.textures.len()
    }

    /// The GPU texture handle of one atlas.
    pub fn texture_handle(&self, i: usize) -> (r: TextureHandle)
        requires
            i < self.textures_seq().len(),
        ensures
            r == self.textures_seq()[i as int].spec_texture(),
    {
        self.textures[i].texture()
    }

    /// One atlas's bitmap, for uploading to its GPU texture.
    pub fn texture_bitmap(&self, i: usize) -> (r: &BitmapRGBA)
        requires
            self.wf(),
            i < self.textures_seq().len(),
        ensures
            r.bytes() == self.textures_seq()[i as int].bitmap_bytes(),
            r.spec_size() == (UVec2 { x: CACHE_TEXTURE_SIZE, y: CACHE_TEXTURE_SIZE }),
    {
        self.textures[i].bitmap()
    }

    /// Whether a cache entry exists for this key.
    pub fn has_cache_entry(&self, key: &GlyphCacheKey) -> (r: bool)
        ensures
            r == self.has_entry(*key),
    {
        match assoc_find(&self.cache_entries, key) {
            Some(_) => true,
            None => false,
        }
    }

    /// How many glyphs are cached.
    pub fn entry_count(&self) -> (r: usize)
        ensures
            r == self.entries_seq().len(),
    {
        self.cache_entries.len()
    }

    /// The atlas index an entry is placed in: `None` when the key is not
    /// cached or its entry has not been placed yet.
    pub fn entry_texture_id(&self, key: &GlyphCacheKey) -> (r: Option<usize>)
        requires
            self.wf(),
        ensures
            r == if self.has_entry(*key) {
                self.entry_of(*key).placed_in()
            } else {
                None::<usize>
            },
    {
        match assoc_find(&self.cache_entries, key) {
            None => None,
            Some(i) => {
                proof {
                    lemma_assoc_at_index(self.cache_entries@, *key, i as int);
                }
                match self.cache_entries[i].1.texture_id {
                    Some(t) => Some(t),
                    None => None,
                }
            },
        }
    }
}

/// The liveness-relevant state of the cache: which keys are cached, and
/// which keys the current and previous frames have used.
pub ghost struct CacheLiveness {
    pub this_frame: Set<GlyphCacheKey>,
    pub last_frame: Set<GlyphCacheKey>,
    pub entries: Set<GlyphCacheKey>,
}

/// What any amount of marking and inserting within one frame does to
/// liveness: the current generation and the entry map only grow, and the
/// previous generation is untouched.
pub open spec fn frame_activity(pre: CacheLiveness, post: CacheLiveness) -> bool {
    &&& pre.this_frame.subset_of(post.this_frame)
    &&& post.last_frame == pre.last_frame
    &&& pre.entries.subset_of(post.entries)
}

/// What a frame boundary does to liveness: the finished frame's usage
/// becomes the previous generation, the new frame starts empty, and no
/// entry is touched.
pub open spec fn frame_boundary(pre: CacheLiveness, post: CacheLiveness) -> bool {
    &&& post.last_frame == pre.this_frame
    &&& post.this_frame.is_empty()
    &&& post.entries == pre.entries
}

/// What any `prepare_for_draw` call may do to liveness: the generations are
/// untouched, no entry appears, and every cached key that either generation
/// has used survives.
pub open spec fn prepare_transition(pre: CacheLiveness, post: CacheLiveness) -> bool {
    &&& post.this_frame == pre.this_frame
    &&& post.last_frame == pre.last_frame
    &&& post.entries.subset_of(pre.entries)
    &&& forall|k: GlyphCacheKey|
        pre.entries.contains(k) && (pre.this_frame.contains(k) || pre.last_frame.contains(k))
            ==> post.entries.contains(k)
}

/// What a rebuild's eviction step does to liveness: exactly the cached keys
/// in neither generation are dropped.
pub open spec fn rebuild_eviction(pre: CacheLiveness, post: CacheLiveness) -> bool {
    &&& prepare_transition(pre, post)
    &&& forall|k: GlyphCacheKey|
        post.entries.contains(k) == (pre.entries.contains(k) && (pre.this_frame.contains(k)
            || pre.last_frame.contains(k)))
}

/// A glyph marked used in one frame and again in the following frame is
/// never evicted by a rebuild occurring in that following frame or the one
/// after it: the two-generation liveness window holds. Starting from the
/// cache at the beginning of a frame (`s0`), the glyph `k` is cached and
/// marked during that frame (`s1`) and survives its placement pass (`s2`);
/// after the frame boundary (`s3`) it is marked again (`s4`), survives the
/// next placement pass (`s5`), and even after a further boundary (`s6`) and
/// a frame that never touches it (`s7`), the following placement pass
/// (`s8`) still keeps it.
pub proof fn lemma_two_generation_liveness(
    s0: CacheLiveness,
    s1: CacheLiveness,
    s2: CacheLiveness,
    s3: CacheLiveness,
    s4: CacheLiveness,
    s5: CacheLiveness,
    s6: CacheLiveness,
    s7: CacheLiveness,
    s8: CacheLiveness,
    k: GlyphCacheKey,
)
    requires
        frame_activity(s0, s1),
        s1.this_frame.contains(k),
        s1.entries.contains(k),
        prepare_transition(s1, s2),
        frame_boundary(s2, s3),
        frame_activity(s3, s4),
        s4.this_frame.contains(k),
        prepare_transition(s4, s5),
        frame_boundary(s5, s6),
        frame_activity(s6, s7),
        prepare_transition(s7, s8),
    ensures
        s5.entries.contains(k),
        s8.entries.contains(k),
{
    assert(s2.entries.contains(k));
    assert(s3.entries.contains(k) && s3.last_frame.contains(k));
    assert(s4.entries.contains(k));
    assert(s5.entries.contains(k));
    assert(s6.entries.contains(k) && s6.last_frame.contains(k));
    assert(s7.entries.contains(k) && s7.last_frame.contains(k));
    assert(s8.entries.contains(k));
}

/// A glyph marked used in one frame only becomes eligible for eviction once
/// two frame boundaries have passed without it being marked again: it then
/// sits in neither liveness generation, and the first rebuild after that
/// point drops its entry. `s0` is the cache at the end of the frame that
/// used `k`; two boundaries and two frames that never mark `k` follow, and
/// the rebuild taking `s5` to `s6` evicts it.
pub proof fn lemma_unused_key_becomes_evictable(
    s0: CacheLiveness,
    s1: CacheLiveness,
    s2: CacheLiveness,
    s3: CacheLiveness,
    s4: CacheLiveness,
    s5: CacheLiveness,
    s6: CacheLiveness,
    k: GlyphCacheKey,
)
    requires
        frame_boundary(s0, s1),
        frame_activity(s1, s2),
        !s2.this_frame.contains(k),
        prepare_transition(s2, s3),
        frame_boundary(s3, s4),
        frame_activity(s4, s5),
        !s5.this_frame.contains(k),
        rebuild_eviction(s5, s6),
    ensures
        !s6.entries.contains(k),
{
    assert(!s3.this_frame.contains(k));
    assert(!s4.last_frame.contains(k));
    assert(!s5.last_frame.contains(k));
}

/// What stopped a `prepare_for_draw` call.
#[derive(Debug, Hash, PartialEq, Eq, Clone, Copy, Structural)]
pub enum PrepareForDrawError {
    /// During rearrangement a surviving glyph failed to fit even a brand-new
    /// empty atlas: its bitmap is too large for the atlas size.
    GlyphRearrangementFailed,
}

/// The cropped texture rectangle: each texture edge moves inward by the same
/// proportional fraction that the crop clipped from the matching screen
/// edge. Texture coordinates stay on the atlas-pixel grid: each moved edge
/// is the floor of the exact fraction, so it sits less than one atlas pixel
/// inside the exact proportional point — and exactly on it whenever the
/// division is whole, in particular whenever the texture rectangle has the
/// screen rectangle's pixel size, as every glyph placement does (see
/// `lemma_crop_exact_for_matching_sizes`).
pub open spec fn spec_crop_to_window(screen: IRect, texture: URect, crop: IRect) -> Option<
    (IRect, URect),
> {
    match screen.spec_intersect(crop) {
        None => None,
        Some(is) => {
            let lc = is.top_left.x - screen.top_left.x;
            let tc = is.top_left.y - screen.top_left.y;
            let rc = screen.bottom_right.x - is.bottom_right.x;
            let bc = screen.bottom_right.y - is.bottom_right.y;
            let tw = texture.spec_width();
            let th = texture.spec_height();
            let sw = screen.spec_width();
            let sh = screen.spec_height();
            Some(
                (
                    is,
                    URect {
                        top_left: UVec2 {
                            x: (texture.top_left.x + tw * lc / sw) as u32,
                            y: (texture.top_left.y + th * tc / sh) as u32,
                        },
                        bottom_right: UVec2 {
                            x: (texture.bottom_right.x - tw * rc / sw) as u32,
                            y: (texture.bottom_right.y - th * bc / sh) as u32,
                        },
                    },
                ),
            )
        },
    }
}

/// When the texture rectangle has exactly the screen rectangle's pixel size
/// — as every glyph placement does — cropping moves each texture edge by
/// exactly the clipped pixel amount: the proportional fraction is exact,
/// with no rounding.
pub proof fn lemma_crop_exact_for_matching_sizes(screen: IRect, texture: URect, crop: IRect)
    requires
        screen.wf(),
        texture.wf(),
        texture.spec_width() == screen.spec_width(),
        texture.spec_height() == screen.spec_height(),
    ensures
        match spec_crop_to_window(screen, texture, crop) {
            None => true,
            Some(pr) => {
                &&& pr.1.top_left.x == texture.top_left.x + (pr.0.top_left.x
                    - screen.top_left.x)
                &&& pr.1.top_left.y == texture.top_left.y + (pr.0.top_left.y
                    - screen.top_left.y)
                &&& pr.1.bottom_right.x == texture.bottom_right.x - (screen.bottom_right.x
                    - pr.0.bottom_right.x)
                &&& pr.1.bottom_right.y == texture.bottom_right.y - (screen.bottom_right.y
                    - pr.0.bottom_right.y)
            },
        },
{
    match screen.spec_intersect(crop) {
        None => {},
        Some(is) => {
            let lc = is.top_left.x - screen.top_left.x;
            let tc = is.top_left.y - screen.top_left.y;
            let rc = screen.bottom_right.x - is.bottom_right.x;
            let bc = screen.bottom_right.y - is.bottom_right.y;
            let sw = screen.spec_width();
            let sh = screen.spec_height();
            vstd::arithmetic::div_mod::lemma_div_multiples_vanish(lc, sw);
            vstd::arithmetic::div_mod::lemma_div_multiples_vanish(rc, sw);
            vstd::arithmetic::div_mod::lemma_div_multiples_vanish(tc, sh);
            vstd::arithmetic::div_mod::lemma_div_multiples_vanish(bc, sh);
        },
    }
}

/// Intersect a screen rectangle with a crop window and shrink the texture
/// rectangle by the fractions clipped from each screen edge, keeping the
/// texture-to-pixel correspondence under clipping. `None` when nothing of
/// the screen rectangle survives the crop.
pub fn crop_to_window(screen: IRect, texture: URect, crop: IRect) -> (r: Option<(IRect, URect)>)
    requires
        screen.wf(),
        texture.wf(),
        screen.spec_width() <= 1_000_000_000,
        screen.spec_height() <= 1_000_000_000,
    ensures
        r == spec_crop_to_window(screen, texture, crop),
        match r {
            None => true,
            Some(pr) => pr.0.wf() && pr.1.wf() && texture.top_left.x <= pr.1.top_left.x
                && texture.top_left.y <= pr.1.top_left.y && pr.1.bottom_right.x
                <= texture.bottom_right.x && pr.1.bottom_right.y <= texture.bottom_right.y,
        },
{
    let is = match screen.intersect(&crop) {
        None => {
            return None;
        },
        Some(is) => is,
    };

    let lc: i64 = (is.top_left.x as i64) - (screen.top_left.x as i64);
    let tc: i64 = (is.top_left.y as i64) - (screen.top_left.y as i64);
    let rc: i64 = (screen.bottom_right.x as i64) - (is.bottom_right.x as i64);
    let bc: i64 = (screen.bottom_right.y as i64) - (is.bottom_right.y as i64);
    let sw: i64 = (screen.bottom_right.x as i64) - (screen.top_left.x as i64);
    let sh: i64 = (screen.bottom_right.y as i64) - (screen.top_left.y as i64);
    let tw: u64 = (texture.bottom_right.x - texture.top_left.x) as u64;
    let th: u64 = (texture.bottom_right.y - texture.top_left.y) as u64;

    proof {
        assert((tw as int) * (lc as int) <= u64::MAX && (tw as int) * (rc as int) <= u64::MAX) by (nonlinear_arith)
            requires
                0 <= tw <= u32::MAX,
                0 <= lc <= 1_000_000_001,
                0 <= rc <= 1_000_000_001,
        ;
        assert((th as int) * (tc as int) <= u64::MAX && (th as int) * (bc as int) <= u64::MAX) by (nonlinear_arith)
            requires
                0 <= th <= u32::MAX,
                0 <= tc <= 1_000_000_001,
                0 <= bc <= 1_000_000_001,
        ;
    }
    let dl: u64 = tw * (lc as u64) / (sw as u64);
    let dt: u64 = th * (tc as u64) / (sh as u64);
    let dr: u64 = tw * (rc as u64) / (sw as u64);
    let db: u64 = th * (bc as u64) / (sh as u64);

    proof {
        assert(tw * (lc as int) / (sw as int) <= tw && tw * (rc as int) / (sw as int) <= tw
            && tw * (lc as int) / (sw as int) + tw * (rc as int) / (sw as int) <= tw * ((lc as int)
            + (rc as int)) / (sw as int) <= tw) by (nonlinear_arith)
            requires
                0 <= lc,
                0 <= rc,
                lc + rc < sw,
                0 < sw,
                0 <= tw,
        ;
        assert(th * (tc as int) / (sh as int) <= th && th * (bc as int) / (sh as int) <= th && th
            * (tc as int) / (sh as int) + th * (bc as int) / (sh as int) <= th * ((tc as int) + (
        bc as int)) / (sh as int) <= th) by (nonlinear_arith)
            requires
                0 <= tc,
                0 <= bc,
                tc + bc < sh,
                0 < sh,
                0 <= th,
        ;
    }

    let cropped_texture = URect::new(
        UVec2::new(texture.top_left.x + (dl as u32), texture.top_left.y + (dt as u32)),
        UVec2::new(texture.bottom_right.x - (dr as u32), texture.bottom_right.y - (db as u32)),
    );
    Some((is, cropped_texture))
}

/// One vertex of an emitted triangle: a screen position in whole pixels, a
/// texture coordinate in atlas pixels (divide by `CACHE_TEXTURE_SIZE` for a
/// normalized coordinate), and the caller's flat colour, passed through
/// unchanged.
#[derive(Clone, Copy)]
pub struct Renderer2DVertex<C> {
    pub position: IVec2,
    pub texture_coord: UVec2,
    pub color: C,
}

/// One triangle drawn from an atlas texture, vertices in clockwise order.
pub struct Renderer2DAction<C> {
    pub texture: TextureHandle,
    pub vertices_clockwise: [Renderer2DVertex<C>; 3],
}

/// The screen rectangle a glyph covers: its position rounded to whole
/// pixels, moved by the bounding-box offset, sized to the atlas placement.
pub open spec fn spec_screen_region(position: IVec2, offset: IVec2, area: URect) -> IRect {
    let px = crate::quantize::spec_round_to_pixels(position.x as int);
    let py = crate::quantize::spec_round_to_pixels(position.y as int);
    IRect {
        top_left: IVec2 { x: (px + offset.x) as i32, y: (py + offset.y) as i32 },
        bottom_right: IVec2 {
            x: (px + offset.x + area.spec_width()) as i32,
            y: (py + offset.y + area.spec_height()) as i32,
        },
    }
}

/// The two clockwise triangles covering a screen rectangle with the matching
/// texture rectangle: top-left, top-right, bottom-right, then bottom-right,
/// bottom-left, top-left.
pub open spec fn spec_glyph_triangles<C>(
    texture: TextureHandle,
    screen: IRect,
    tex: URect,
    color: C,
) -> Seq<Renderer2DAction<C>> {
    let s_tl = Renderer2DVertex { position: screen.top_left, texture_coord: tex.top_left, color };
    let s_tr = Renderer2DVertex {
        position: IVec2 { x: screen.bottom_right.x, y: screen.top_left.y },
        texture_coord: UVec2 { x: tex.bottom_right.x, y: tex.top_left.y },
        color,
    };
    let s_br = Renderer2DVertex {
        position: screen.bottom_right,
        texture_coord: tex.bottom_right,
        color,
    };
    let s_bl = Renderer2DVertex {
        position: IVec2 { x: screen.top_left.x, y: screen.bottom_right.y },
        texture_coord: UVec2 { x: tex.top_left.x, y: tex.bottom_right.y },
        color,
    };
    seq![
        Renderer2DAction { texture, vertices_clockwise: [s_tl, s_tr, s_br] },
        Renderer2DAction { texture, vertices_clockwise: [s_br, s_bl, s_tl] },
    ]
}

/// Whether a liveness set holds this key.
fn frame_contains(s: &Vec<GlyphCacheKey>, k: &GlyphCacheKey) -> (r: bool)
    ensures
        r == s@.contains(*k),
{
    let n: usize = s.len();
    let mut i: usize = 0;
    while i < n
        invariant
            n == s@.len(),
            i <= n,
            forall|j: int| 0 <= j < i ==> s@[j] != *k,
        decreases n - i,
    {
        if s[i] == *k {
            return true;
        }
        i = i + 1;
    }
    false
}

} // verus!
