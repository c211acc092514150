use glyph_cache::glyph::FontId;
use glyph_cache::glyph::Glyph;
use glyph_cache::glyph::GlyphId;
use glyph_cache::glyph::GlyphIter;
use glyph_cache::glyph::IntoGlyphId;

#[test]
fn glyph_getters_return_identity() {
    let g = Glyph { font: FontId(2), id: GlyphId(41) };
    assert_eq!(g.font(), FontId(2));
    assert_eq!(g.id(), GlyphId(41));
}

#[test]
fn into_glyph_id_conversions() {
    let font = FontId(0);
    assert_eq!(GlyphId(4).into_glyph_id(&font), GlyphId(4));
    assert_eq!(9u16.into_glyph_id(&font), GlyphId(9));
}

#[test]
fn glyph_iter_yields_each_index_in_order() {
    let font = FontId(3);
    let mut it = GlyphIter::new(font, vec![7, 8, 9]);
    assert_eq!(it.next(), Some(Glyph { font, id: GlyphId(7) }));
    assert_eq!(it.next(), Some(Glyph { font, id: GlyphId(8) }));
    assert_eq!(it.next(), Some(Glyph { font, id: GlyphId(9) }));
    assert_eq!(it.next(), None);
    assert_eq!(it.next(), None);
}
