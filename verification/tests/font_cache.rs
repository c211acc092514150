use glyph_cache::dimen::IRect;
use glyph_cache::dimen::IVec2;
use glyph_cache::dimen::URect;
use glyph_cache::dimen::UVec2;
use glyph_cache::font_cache::crop_to_window;
use glyph_cache::font_cache::GlyphCache;
use glyph_cache::font_cache::GlyphCacheKey;
use glyph_cache::font_cache::InsertOutcome;
use glyph_cache::font_cache::PrepareForDrawError;
use glyph_cache::font_cache::RasterizedGlyph;
use glyph_cache::font_cache::TextureHandle;
use glyph_cache::font_cache::GlyphCacheTextureAppendError;
use glyph_cache::glyph::GlyphId;
use glyph_cache::texture_packer::TexturePackerError;

fn key(font_id: usize, glyph: u16) -> GlyphCacheKey {
    GlyphCacheKey::from_position(font_id, GlyphId(glyph), 16_000, 0, 0)
}

fn raster(w: u32, h: u32) -> RasterizedGlyph {
    RasterizedGlyph {
        size: UVec2::new(w, h),
        coverage: vec![128; (w * h) as usize],
        bounding_box_offset: IVec2::new(0, 0),
    }
}

#[test]
fn close_subpixel_offsets_share_one_key() {
    // Subpixel offsets of 0.020 px and 0.040 px quantize to the same bucket:
    // one cache key, one rasterization, one atlas slot.
    let a = GlyphCacheKey::from_position(1, GlyphId(7), 16_000, 10_020, 5_000);
    let b = GlyphCacheKey::from_position(1, GlyphId(7), 16_000, 10_040, 5_000);
    assert_eq!(a, b);

    // Offsets on opposite sides of a bucket boundary differ, however close.
    let c = GlyphCacheKey::from_position(1, GlyphId(7), 16_000, 10_049, 5_000);
    let d = GlyphCacheKey::from_position(1, GlyphId(7), 16_000, 10_050, 5_000);
    assert_ne!(c, d);
}

#[test]
fn whole_pixel_moves_share_one_key() {
    // Moving by exactly one pixel leaves the subpixel offset unchanged.
    let a = GlyphCacheKey::from_position(1, GlyphId(7), 16_000, 10_250, 0);
    let b = GlyphCacheKey::from_position(1, GlyphId(7), 16_000, 11_250, 0);
    assert_eq!(a, b);
}

#[test]
fn packer_error_converts_to_append_error() {
    assert_eq!(
        GlyphCacheTextureAppendError::from(TexturePackerError::NotEnoughSpace),
        GlyphCacheTextureAppendError::NotEnoughSpace
    );
}

#[test]
fn insert_outcomes() {
    let mut cache = GlyphCache::new();
    let k1 = key(0, 1);

    cache.mark_used(k1);
    assert_eq!(cache.insert_rasterized(k1, None), InsertOutcome::Empty);
    assert!(!cache.has_cache_entry(&k1));

    let too_big = raster(2000, 2000);
    assert_eq!(cache.insert_rasterized(k1, Some(&too_big)), InsertOutcome::TooBig);
    assert!(!cache.has_cache_entry(&k1));

    let ok = raster(10, 10);
    assert_eq!(cache.insert_rasterized(k1, Some(&ok)), InsertOutcome::Inserted);
    assert!(cache.has_cache_entry(&k1));
    assert_eq!(cache.entry_texture_id(&k1), None);

    assert_eq!(cache.insert_rasterized(k1, Some(&ok)), InsertOutcome::AlreadyCached);
    assert_eq!(cache.entry_count(), 1);
}

#[test]
fn prepare_places_and_uploads_once() {
    let mut cache = GlyphCache::new();
    let k1 = key(0, 1);
    cache.mark_used(k1);
    cache.insert_rasterized(k1, Some(&raster(10, 10)));

    let report = cache.prepare_for_draw().unwrap();
    assert!(report.rebuilt);
    assert_eq!(report.textures_to_upload, vec![0]);
    assert_eq!(cache.texture_count(), 1);
    assert_eq!(cache.entry_texture_id(&k1), Some(0));

    // Nothing new: the second pass is a no-op and uploads nothing.
    let again = cache.prepare_for_draw().unwrap();
    assert!(!again.rebuilt);
    assert!(again.textures_to_upload.is_empty());
}

#[test]
fn incremental_placement_avoids_rebuild() {
    let mut cache = GlyphCache::new();
    let k1 = key(0, 1);
    cache.mark_used(k1);
    cache.insert_rasterized(k1, Some(&raster(10, 10)));
    assert!(cache.prepare_for_draw().unwrap().rebuilt);

    // A second small glyph fits the existing atlas: phase one places it
    // without rebuilding, and the atlas is re-uploaded once.
    let k2 = key(0, 2);
    cache.mark_used(k2);
    cache.insert_rasterized(k2, Some(&raster(8, 8)));
    let report = cache.prepare_for_draw().unwrap();
    assert!(!report.rebuilt);
    assert_eq!(report.textures_to_upload, vec![0]);
    assert_eq!(cache.texture_count(), 1);
    assert_eq!(cache.entry_texture_id(&k1), Some(0));
    assert_eq!(cache.entry_texture_id(&k2), Some(0));
}

#[test]
fn incremental_placement_takes_first_atlas_with_room() {
    // Two full-ish atlases exist after a rebuild; each still has room for a
    // small glyph, and phase one must pick the first one.
    let mut cache = GlyphCache::new();
    let k1 = key(0, 1);
    let k2 = key(0, 2);
    cache.mark_used(k1);
    cache.insert_rasterized(k1, Some(&raster(600, 600)));
    cache.mark_used(k2);
    cache.insert_rasterized(k2, Some(&raster(600, 600)));
    cache.prepare_for_draw().unwrap();
    assert_eq!(cache.texture_count(), 2);

    let k3 = key(0, 3);
    cache.mark_used(k3);
    cache.insert_rasterized(k3, Some(&raster(10, 10)));
    let report = cache.prepare_for_draw().unwrap();
    assert!(!report.rebuilt);
    assert_eq!(cache.entry_texture_id(&k3), Some(0));
}

#[test]
fn rebuild_keeps_exactly_one_spare_atlas() {
    // Four glyphs, one atlas each; then a rebuild that keeps only three
    // survivors pulls three atlases back from the cleared pool and keeps
    // exactly one of the two leftovers as a spare.
    let mut cache = GlyphCache::new();
    for g in 1..=4u16 {
        let k = key(0, g);
        cache.mark_used(k);
        cache.insert_rasterized(k, Some(&raster(600, 600)));
    }
    cache.prepare_for_draw().unwrap();
    assert_eq!(cache.texture_count(), 4);

    cache.on_new_frame_start();
    cache.mark_used(key(0, 1));
    let k5 = key(0, 5);
    cache.mark_used(k5);
    cache.insert_rasterized(k5, Some(&raster(600, 600)));
    cache.prepare_for_draw().unwrap();
    assert_eq!(cache.texture_count(), 5);

    cache.on_new_frame_start();
    // Only k1 (marked now), k5 (previous generation) and the new k6 survive
    // this rebuild: three atlases are reused, one of the two remaining
    // cleared atlases stays as the spare.
    cache.mark_used(key(0, 1));
    let k6 = key(0, 6);
    cache.mark_used(k6);
    cache.insert_rasterized(k6, Some(&raster(600, 600)));
    let report = cache.prepare_for_draw().unwrap();
    assert!(report.rebuilt);
    assert_eq!(cache.entry_count(), 3);
    assert_eq!(cache.texture_count(), 4);
}

#[test]
fn two_generation_liveness_window_holds() {
    // A glyph used in frame N and again in frame N+1 survives the rebuilds
    // of frames N+1 and N+2.
    let mut cache = GlyphCache::new();
    let k1 = key(0, 1);
    cache.mark_used(k1);
    cache.insert_rasterized(k1, Some(&raster(600, 600)));
    cache.prepare_for_draw().unwrap();

    cache.on_new_frame_start();

    // Frame N+1 uses k1 again, and a second large glyph forces a rebuild.
    let k2 = key(0, 2);
    assert!(!cache.mark_used(k1));
    cache.mark_used(k2);
    cache.insert_rasterized(k2, Some(&raster(600, 600)));
    let report = cache.prepare_for_draw().unwrap();
    assert!(report.rebuilt);
    assert!(cache.has_cache_entry(&k1));
    assert!(cache.has_cache_entry(&k2));
    assert_eq!(cache.texture_count(), 2);

    cache.on_new_frame_start();

    // A rebuild in frame N+2 still keeps k1: it sits in the previous
    // generation.
    let k3 = key(0, 3);
    cache.mark_used(k3);
    cache.insert_rasterized(k3, Some(&raster(600, 600)));
    let report = cache.prepare_for_draw().unwrap();
    assert!(report.rebuilt);
    assert!(cache.has_cache_entry(&k1));
    assert!(cache.has_cache_entry(&k2));
    assert!(cache.has_cache_entry(&k3));
}

#[test]
fn unused_glyph_is_evicted_after_two_frames() {
    // A glyph used in frame N only is dropped by the first rebuild that
    // happens after two frame boundaries without re-marking it.
    let mut cache = GlyphCache::new();
    let k1 = key(0, 1);
    cache.mark_used(k1);
    cache.insert_rasterized(k1, Some(&raster(600, 600)));
    cache.prepare_for_draw().unwrap();

    cache.on_new_frame_start();

    // Frame N+1 never marks k1; its rebuild keeps k1 (previous generation).
    let k2 = key(0, 2);
    cache.mark_used(k2);
    cache.insert_rasterized(k2, Some(&raster(600, 600)));
    let report = cache.prepare_for_draw().unwrap();
    assert!(report.rebuilt);
    assert!(cache.has_cache_entry(&k1));

    cache.on_new_frame_start();

    // Frame N+2: k1 is now in neither generation, so this rebuild evicts it.
    let k3 = key(0, 3);
    cache.mark_used(k3);
    cache.insert_rasterized(k3, Some(&raster(600, 600)));
    let report = cache.prepare_for_draw().unwrap();
    assert!(report.rebuilt);
    assert!(!cache.has_cache_entry(&k1));
    assert!(cache.has_cache_entry(&k2));
    assert!(cache.has_cache_entry(&k3));
}

#[test]
fn rebuild_keeps_texture_handles_stable_when_idle() {
    let mut cache = GlyphCache::new();
    let k1 = key(0, 1);
    let k2 = key(0, 2);
    cache.mark_used(k1);
    cache.insert_rasterized(k1, Some(&raster(600, 600)));
    cache.prepare_for_draw().unwrap();
    cache.mark_used(k2);
    cache.insert_rasterized(k2, Some(&raster(600, 600)));
    cache.prepare_for_draw().unwrap();

    assert_eq!(cache.texture_count(), 2);
    let h0 = cache.texture_handle(0);
    let h1 = cache.texture_handle(1);
    assert_eq!(h0, TextureHandle(0));
    assert_eq!(h1, TextureHandle(1));

    // Two idle passes: no rebuild, no upload, no handle dropped.
    for _ in 0..2 {
        let report = cache.prepare_for_draw().unwrap();
        assert!(!report.rebuilt);
        assert!(report.textures_to_upload.is_empty());
        assert_eq!(cache.texture_count(), 2);
        assert_eq!(cache.texture_handle(0), h0);
        assert_eq!(cache.texture_handle(1), h1);
    }
}

#[test]
fn oversized_glyph_makes_rearrangement_fail() {
    // 1023 x 1023 passes the atlas-size check, but with its one-pixel
    // border it can never be packed: the rebuild reports the internal
    // failure instead of ignoring it.
    let mut cache = GlyphCache::new();
    let k1 = key(0, 1);
    cache.mark_used(k1);
    assert_eq!(
        cache.insert_rasterized(k1, Some(&raster(1023, 1023))),
        InsertOutcome::Inserted
    );
    assert_eq!(
        cache.prepare_for_draw(),
        Err(PrepareForDrawError::GlyphRearrangementFailed)
    );
}

#[test]
fn draw_actions_for_uncached_glyph_are_empty() {
    let mut cache = GlyphCache::new();
    cache.prepare_for_draw().unwrap();
    let actions =
        cache.get_renderer2d_actions(0, GlyphId(9), 16_000, IVec2::new(0, 0), 1u8, None);
    assert!(actions.is_empty());
}

#[test]
fn draw_actions_cover_the_placed_glyph() {
    let mut cache = GlyphCache::new();
    let k1 = key(0, 1);
    cache.mark_used(k1);
    cache.insert_rasterized(
        k1,
        Some(&RasterizedGlyph {
            size: UVec2::new(10, 10),
            coverage: vec![255; 100],
            bounding_box_offset: IVec2::new(3, 4),
        }),
    );
    cache.prepare_for_draw().unwrap();

    let actions =
        cache.get_renderer2d_actions(0, GlyphId(1), 16_000, IVec2::new(0, 0), 7u8, None);
    assert_eq!(actions.len(), 2);

    // First glyph in a fresh atlas: placement at (1,1)-(11,11); the screen
    // rectangle is the rounded position plus the bounding-box offset.
    let first = &actions[0];
    assert_eq!(first.texture, TextureHandle(0));
    let [tl, tr, br] = &first.vertices_clockwise;
    assert_eq!(tl.position, IVec2::new(3, 4));
    assert_eq!(tl.texture_coord, UVec2::new(1, 1));
    assert_eq!(tr.position, IVec2::new(13, 4));
    assert_eq!(tr.texture_coord, UVec2::new(11, 1));
    assert_eq!(br.position, IVec2::new(13, 14));
    assert_eq!(br.texture_coord, UVec2::new(11, 11));
    assert_eq!(tl.color, 7u8);

    let [br2, bl, tl2] = &actions[1].vertices_clockwise;
    assert_eq!(br2.position, br.position);
    assert_eq!(bl.position, IVec2::new(3, 14));
    assert_eq!(bl.texture_coord, UVec2::new(1, 11));
    assert_eq!(tl2.position, tl.position);
}

#[test]
fn draw_actions_crop_shifts_texture_coordinates() {
    let mut cache = GlyphCache::new();
    let k1 = key(0, 1);
    cache.mark_used(k1);
    cache.insert_rasterized(
        k1,
        Some(&RasterizedGlyph {
            size: UVec2::new(10, 10),
            coverage: vec![255; 100],
            bounding_box_offset: IVec2::new(0, 0),
        }),
    );
    cache.prepare_for_draw().unwrap();

    // The crop removes the left 4 screen pixels; the texture rectangle
    // loses the same 4 atlas pixels, because screen and placement sizes
    // match.
    let crop = IRect::from_tuples((4, 0), (100, 100));
    let actions =
        cache.get_renderer2d_actions(0, GlyphId(1), 16_000, IVec2::new(0, 0), 0u8, Some(&crop));
    assert_eq!(actions.len(), 2);
    let [tl, _tr, br] = &actions[0].vertices_clockwise;
    assert_eq!(tl.position, IVec2::new(4, 0));
    assert_eq!(tl.texture_coord, UVec2::new(5, 1));
    assert_eq!(br.position, IVec2::new(10, 10));
    assert_eq!(br.texture_coord, UVec2::new(11, 11));

    // A crop that misses the glyph entirely emits nothing.
    let away = IRect::from_tuples((500, 500), (600, 600));
    let none =
        cache.get_renderer2d_actions(0, GlyphId(1), 16_000, IVec2::new(0, 0), 0u8, Some(&away));
    assert!(none.is_empty());
}

#[test]
fn crop_moves_texture_edges_proportionally() {
    // A screen rectangle 20 px wide mapped to the whole of a 1024-px
    // texture: cropping 5 px from the left moves the texture's left edge a
    // quarter of the way across, and the right edge stays put.
    let screen = IRect::from_tuples((0, 0), (20, 20));
    let texture = URect::from_tuples((0, 0), (1024, 1024));
    let crop = IRect::from_tuples((5, 0), (20, 20));
    let (cropped_screen, cropped_texture) = crop_to_window(screen, texture, crop).unwrap();
    assert_eq!(cropped_screen, IRect::from_tuples((5, 0), (20, 20)));
    assert_eq!(cropped_texture.top_left.x, 1024 / 4);
    assert_eq!(cropped_texture.top_left.y, 0);
    assert_eq!(cropped_texture.bottom_right.x, 1024);
    assert_eq!(cropped_texture.bottom_right.y, 1024);
}

#[test]
fn atlas_bitmap_holds_the_blitted_glyph() {
    let mut cache = GlyphCache::new();
    let k1 = key(0, 1);
    cache.mark_used(k1);
    cache.insert_rasterized(
        k1,
        Some(&RasterizedGlyph {
            size: UVec2::new(2, 1),
            coverage: vec![60, 70],
            bounding_box_offset: IVec2::new(0, 0),
        }),
    );
    cache.prepare_for_draw().unwrap();

    // Placement at (1,1): white pixels with the coverage as alpha, inside a
    // transparent border.
    let bitmap = cache.texture_bitmap(0);
    assert_eq!(bitmap.byte(1, 1, 0), 255);
    assert_eq!(bitmap.byte(1, 1, 3), 60);
    assert_eq!(bitmap.byte(2, 1, 3), 70);
    assert_eq!(bitmap.byte(0, 0, 3), 0);
    assert_eq!(bitmap.byte(3, 1, 3), 0);
}
