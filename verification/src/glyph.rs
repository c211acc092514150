//! Glyph and font identity values.
//!
//! The cache never reads font data itself: a glyph is identified by the font
//! it belongs to and its index within that font, both plain values supplied
//! by the layout collaborator.

use vstd::prelude::*;

verus! {

/// The index of a glyph within its font.
#[derive(Debug, Clone, Copy, PartialOrd, Ord, PartialEq, Eq, Hash, Structural)]
pub struct GlyphId(pub u16);

/// The identity of a loaded font.
#[derive(Debug, Clone, Copy, PartialOrd, Ord, PartialEq, Eq, Hash, Structural)]
pub struct FontId(pub usize);

/// A single glyph of a font, without an inherent scale or position.
#[derive(Debug, Clone, Copy, PartialEq, Eq, Structural)]
pub struct Glyph {
    pub font: FontId,
    pub id: GlyphId,
}

impl Glyph {
    /// The font to which this glyph belongs.
    pub fn font(&self) -> (r: FontId)
        ensures
            r == self.font,
    {
        self.font
    }

    /// The glyph identifier for this glyph.
    pub fn id(&self) -> (r: GlyphId)
        ensures
            r == self.id,
    {
        self.id
    }
}

/// A trait for types that can be converted into a `GlyphId`, in the context
/// of a specific font.
pub trait IntoGlyphId {
    fn into_glyph_id(self, font: &FontId) -> GlyphId;
}

impl IntoGlyphId for GlyphId {
    fn into_glyph_id(self, _font: &FontId) -> GlyphId {
        self
    }
}

impl IntoGlyphId for u16 {
    fn into_glyph_id(self, _font: &FontId) -> GlyphId {
        GlyphId(self)
    }
}

/// A cursor over the glyphs of one font for a batch of glyph indices: each
/// step yields the next index as a `Glyph` of that font. (The standard
/// iterator protocol cannot carry a verified contract on a library type, so
/// this walks by an explicit `next` method.)
pub struct GlyphIter {
    font: FontId,
    ids: Vec<u16>,
    position: usize,
}

impl GlyphIter {
    pub closed spec fn spec_font(self) -> FontId {
        self.font
    }

    pub closed spec fn spec_ids(self) -> Seq<u16> {
        self.ids@
    }

    pub closed spec fn spec_position(self) -> int {
        self.position as int
    }

    pub fn new(font: FontId, ids: Vec<u16>) -> (r: GlyphIter)
        ensures
            r.spec_font() == font,
            r.spec_ids() == ids@,
            r.spec_position() == 0,
    {
        GlyphIter { font, ids, position: 0 }
    }

    /// The next glyph, advancing the cursor; `None` once every index has
    /// been yielded.
    pub fn next(&mut self) -> (r: Option<Glyph>)
        ensures
            final(self).spec_font() == old(self).spec_font(),
            final(self).spec_ids() == old(self).spec_ids(),
            if old(self).spec_position() < old(self).spec_ids().len() {
                final(self).spec_position() == old(self).spec_position() + 1 && r == Some(
                    (Glyph {
                        font: old(self).spec_font(),
                        id: GlyphId(old(self).spec_ids()[old(self).spec_position()]),
                    }),
                )
            } else {
                final(self).spec_position() == old(self).spec_position() && r is None
            },
    {
        if self.position < self.ids.len() {
            let id = self.ids[self.position];
            self.position = self.position + 1;
            Some(Glyph { font: self.font, id: GlyphId(id) })
        } else {
            None
        }
    }
}

} // verus!
