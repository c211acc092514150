//! An owned RGBA8 pixel buffer with glyph-drawing and region-blit operations.
//!
//! Pixels are stored row-major, four bytes per pixel. Glyph coverage is drawn
//! as opaque white with the coverage value as alpha; blitting copies another
//! bitmap's full content to a given offset and leaves every other byte alone.

use vstd::prelude::*;

use crate::dimen::UVec2;

verus! {

/// The position of channel `c` of pixel `(x, y)` in a row-major RGBA8 buffer
/// that is `w` pixels wide.
pub open spec fn byte_index(w: int, x: int, y: int, c: int) -> int {
    4 * (w * y + x) + c
}

/// The number of bytes an RGBA8 buffer of this pixel size occupies.
pub open spec fn byte_count(size: UVec2) -> int {
    4 * (size.x * size.y)
}

/// The byte a glyph draw writes at position `j` of the buffer: opaque white
/// in the colour channels, the pixel's coverage in the alpha channel.
pub open spec fn spec_glyph_byte(coverage: Seq<u8>, j: int) -> u8 {
    if j % 4 == 3 {
        coverage[j / 4]
    } else {
        255
    }
}

/// Channel positions of pixels inside a `w` by `h` buffer lie inside it.
proof fn lemma_byte_index_in_range(w: int, h: int, x: int, y: int, c: int)
    requires
        0 <= x < w,
        0 <= y < h,
        0 <= c < 4,
    ensures
        0 <= byte_index(w, x, y, c),
        byte_index(w, x, y, c) < 4 * (w * h),
{
    assert(0 <= w * y + x && 4 * (w * y + x) + c < 4 * (w * h)) by (nonlinear_arith)
        requires
            0 <= x < w,
            0 <= y < h,
            0 <= c < 4,
    ;
}

/// Distinct channel positions have distinct byte indices.
proof fn lemma_byte_index_injective(w: int, x1: int, y1: int, c1: int, x2: int, y2: int, c2: int)
    requires
        0 <= x1 < w,
        0 <= x2 < w,
        0 <= c1 < 4,
        0 <= c2 < 4,
        0 <= y1,
        0 <= y2,
        !(x1 == x2 && y1 == y2 && c1 == c2),
    ensures
        byte_index(w, x1, y1, c1) != byte_index(w, x2, y2, c2),
{
    if y1 == y2 {
        assert(byte_index(w, x1, y1, c1) != byte_index(w, x2, y2, c2));
    } else if y1 < y2 {
        assert(4 * (w * y1 + x1) + c1 < 4 * (w * y2 + x2) + c2) by (nonlinear_arith)
            requires
                0 <= x1 < w,
                0 <= x2 < w,
                0 <= c1 < 4,
                0 <= c2 < 4,
                0 <= y1 < y2,
        ;
    } else {
        assert(4 * (w * y2 + x2) + c2 < 4 * (w * y1 + x1) + c1) by (nonlinear_arith)
            requires
                0 <= x1 < w,
                0 <= x2 < w,
                0 <= c1 < 4,
                0 <= c2 < 4,
                0 <= y2 < y1,
        ;
    }
}

/// An owned buffer of `width * height * 4` bytes, RGBA8.
#[derive(Debug)]
pub struct BitmapRGBA {
    data: Vec<u8>,
    size: UVec2,
}

impl BitmapRGBA {
    /// The pixel dimensions of the buffer.
    pub closed spec fn spec_size(self) -> UVec2 {
        self.size
    }

    /// The raw bytes of the buffer.
    pub closed spec fn bytes(self) -> Seq<u8> {
        self.data@
    }

    /// The buffer holds exactly four bytes for each of its pixels.
    pub open spec fn wf(self) -> bool {
        self.bytes().len() == byte_count(self.spec_size())
    }

    /// Channel `c` of pixel `(x, y)`.
    pub open spec fn byte_at(self, x: int, y: int, c: int) -> u8 {
        self.bytes()[byte_index(self.spec_size().x as int, x, y, c)]
    }

    /// A fresh, fully transparent buffer.
    pub fn new(size: UVec2) -> (r: BitmapRGBA)
        requires
            byte_count(size) <= u32::MAX,
        ensures
            r.wf(),
            r.spec_size() == size,
            forall|i: int| 0 <= i < r.bytes().len() ==> r.bytes()[i] == 0,
    {
        let pixels: u32 = size.x * size.y;
        let count: u32 = 4 * pixels;
        let data: Vec<u8> = vec![0u8; count as usize];
        BitmapRGBA { data, size }
    }

    /// Zero every byte, leaving the buffer fully transparent.
    pub fn clear(&mut self)
        ensures
            final(self).spec_size() == old(self).spec_size(),
            final(self).bytes().len() == old(self).bytes().len(),
            forall|i: int| 0 <= i < final(self).bytes().len() ==> final(self).bytes()[i] == 0,
    {
        let n: usize = self.data.len();
        self.data = vec![0u8; n];
    }

    pub fn size(&self) -> (r: UVec2)
        ensures
            r == self.spec_size(),
    {
        self.size
    }

    /// The raw bytes, for handing the buffer to a GPU upload.
    pub fn data(&self) -> (r: &Vec<u8>)
        ensures
            r@ == self.bytes(),
    {
        &self.data
    }

    /// Read channel `c` of pixel `(x, y)`.
    pub fn byte(&self, x: u32, y: u32, c: u32) -> (r: u8)
        requires
            self.wf(),
            x < self.spec_size().x,
            y < self.spec_size().y,
            c < 4,
        ensures
            r == self.byte_at(x as int, y as int, c as int),
    {
        proof {
            lemma_byte_index_in_range(
                self.spec_size().x as int,
                self.spec_size().y as int,
                x as int,
                y as int,
                c as int,
            );
        }
        let dlen: usize = self.data.len();
        proof {
            assert(byte_index(self.spec_size().x as int, x as int, y as int, c as int) < dlen);
        }
        let w: usize = self.size.x as usize;
        let idx: usize = 4 * (w * (y as usize) + (x as usize)) + (c as usize);
        self.data[idx]
    }

    /// Write opaque white, with the given coverage values as alpha, over the
    /// whole buffer. `coverage` holds one byte per pixel, row-major, exactly
    /// as a rasterizer emits it.
    pub fn draw_glyph(&mut self, coverage: &Vec<u8>)
        requires
            old(self).wf(),
            coverage@.len() == old(self).spec_size().x * old(self).spec_size().y,
        ensures
            final(self).wf(),
            final(self).spec_size() == old(self).spec_size(),
            forall|j: int|
                0 <= j < final(self).bytes().len() ==> #[trigger] final(self).bytes()[j]
                    == spec_glyph_byte(coverage@, j),
    {
        let pixels: usize = coverage.len();
        let mut p: usize = 0;
        while p < pixels
            invariant
                self.wf(),
                self.spec_size() == old(self).spec_size(),
                self.bytes().len() == old(self).bytes().len(),
                pixels == coverage@.len(),
                coverage@.len() == self.spec_size().x * self.spec_size().y,
                p <= pixels,
                forall|j: int|
                    0 <= j < 4 * p ==> #[trigger] self.bytes()[j] == spec_glyph_byte(coverage@, j),
            decreases pixels - p,
        {
            let dlen: usize = self.data.len();
            proof {
                assert(4 * pixels <= dlen);
            }
            let base: usize = 4 * p;
            self.data[base] = 255;
            self.data[base + 1] = 255;
            self.data[base + 2] = 255;
            self.data[base + 3] = coverage[p];
            proof {
                assert forall|j: int| 0 <= j < 4 * (p + 1) implies #[trigger] self.bytes()[j]
                    == spec_glyph_byte(coverage@, j) by {
                    if 4 * p <= j {
                        assert(j / 4 == p as int && (j % 4 == 3 <==> j == 4 * p + 3));
                    }
                }
            }
            p = p + 1;
        }
    }

    /// Copy the full pixel content of `bitmap` into this buffer, with its
    /// top-left corner at `position`. Every byte outside the written window
    /// keeps its value.
    pub fn draw_bitmap_at(&mut self, bitmap: &BitmapRGBA, position: &UVec2)
        requires
            old(self).wf(),
            bitmap.wf(),
            position.x + bitmap.spec_size().x <= old(self).spec_size().x,
            position.y + bitmap.spec_size().y <= old(self).spec_size().y,
        ensures
            final(self).wf(),
            final(self).spec_size() == old(self).spec_size(),
            forall|x: int, y: int, c: int|
                0 <= x < bitmap.spec_size().x && 0 <= y < bitmap.spec_size().y && 0 <= c < 4
                    ==> final(self).bytes()[#[trigger] byte_index(
                    old(self).spec_size().x as int,
                    position.x + x,
                    position.y + y,
                    c,
                )] == bitmap.byte_at(x, y, c),
            forall|x: int, y: int, c: int|
                0 <= x < old(self).spec_size().x && 0 <= y < old(self).spec_size().y && 0 <= c < 4
                    && !(position.x <= x < position.x + bitmap.spec_size().x && position.y <= y
                    < position.y + bitmap.spec_size().y) ==> final(self).bytes()[#[trigger] byte_index(
                    old(self).spec_size().x as int,
                    x,
                    y,
                    c,
                )] == old(self).bytes()[byte_index(old(self).spec_size().x as int, x, y, c)],
    {
        let dw: usize = self.size.x as usize;
        let sw: usize = bitmap.size.x as usize;
        let sh: usize = bitmap.size.y as usize;
        let px: usize = position.x as usize;
        let py: usize = position.y as usize;

        let ghost dwi: int = old(self).spec_size().x as int;
        let ghost dhi: int = old(self).spec_size().y as int;
        let ghost swi: int = bitmap.spec_size().x as int;
        let ghost shi: int = bitmap.spec_size().y as int;
        let ghost pxi: int = position.x as int;
        let ghost pyi: int = position.y as int;
        let ghost orig = old(self).bytes();

        let mut dy: usize = 0;
        while dy < sh
            invariant
                self.wf(),
                self.spec_size() == old(self).spec_size(),
                bitmap.wf(),
                dwi == old(self).spec_size().x,
                dhi == old(self).spec_size().y,
                swi == bitmap.spec_size().x,
                shi == bitmap.spec_size().y,
                pxi == position.x,
                pyi == position.y,
                dw == dwi,
                sw == swi,
                sh == shi,
                px == pxi,
                py == pyi,
                pxi + swi <= dwi,
                pyi + shi <= dhi,
                orig == old(self).bytes(),
                dy <= sh,
                forall|x: int, y: int, c: int|
                    0 <= x < swi && 0 <= y < dy && 0 <= c < 4 ==> self.bytes()[#[trigger] byte_index(
                        dwi,
                        pxi + x,
                        pyi + y,
                        c,
                    )] == bitmap.byte_at(x, y, c),
                forall|x: int, y: int, c: int|
                    0 <= x < dwi && 0 <= y < dhi && 0 <= c < 4 && !(pxi <= x < pxi + swi && pyi <= y
                        < pyi + dy) ==> self.bytes()[#[trigger] byte_index(dwi, x, y, c)]
                        == orig[byte_index(dwi, x, y, c)],
            decreases sh - dy,
        {
            let mut dx: usize = 0;
            while dx < sw
                invariant
                    self.wf(),
                    self.spec_size() == old(self).spec_size(),
                    bitmap.wf(),
                    dwi == old(self).spec_size().x,
                    dhi == old(self).spec_size().y,
                    swi == bitmap.spec_size().x,
                    shi == bitmap.spec_size().y,
                    pxi == position.x,
                    pyi == position.y,
                    dw == dwi,
                    sw == swi,
                    sh == shi,
                    px == pxi,
                    py == pyi,
                    pxi + swi <= dwi,
                    pyi + shi <= dhi,
                    orig == old(self).bytes(),
                    dy < sh,
                    dx <= sw,
                    forall|x: int, y: int, c: int|
                        0 <= x < swi && 0 <= y < dy && 0 <= c < 4 ==> self.bytes()[#[trigger] byte_index(
                            dwi,
                            pxi + x,
                            pyi + y,
                            c,
                        )] == bitmap.byte_at(x, y, c),
                    forall|x: int, c: int|
                        0 <= x < dx && 0 <= c < 4 ==> self.bytes()[#[trigger] byte_index(
                            dwi,
                            pxi + x,
                            pyi + dy,
                            c,
                        )] == bitmap.byte_at(x, dy as int, c),
                    forall|x: int, y: int, c: int|
                        0 <= x < dwi && 0 <= y < dhi && 0 <= c < 4 && !(pxi <= x < pxi + swi && pyi
                            <= y < pyi + dy) && !(pyi + dy == y && pxi <= x < pxi + dx) ==> self.bytes()[#[trigger] byte_index(
                            dwi,
                            x,
                            y,
                            c,
                        )] == orig[byte_index(dwi, x, y, c)],
                decreases sw - dx,
            {
                let dlen: usize = self.data.len();
                let slen: usize = bitmap.data.len();
                proof {
                    lemma_byte_index_in_range(swi, shi, dx as int, dy as int, 0);
                    lemma_byte_index_in_range(swi, shi, dx as int, dy as int, 3);
                    lemma_byte_index_in_range(dwi, dhi, pxi + dx, pyi + dy, 0);
                    lemma_byte_index_in_range(dwi, dhi, pxi + dx, pyi + dy, 3);
                    assert(swi * (dy as int) + dx >= 0 && dwi * (pyi + dy) + (pxi + dx) >= 0);
                    assert(4 * (swi * (dy as int) + (dx as int)) + 3 < slen);
                    assert(4 * (dwi * (pyi + (dy as int)) + (pxi + (dx as int))) + 3 < dlen);
                }
                let sbase: usize = 4 * (sw * dy + dx);
                let dbase: usize = 4 * (dw * (py + dy) + (px + dx));
                let ghost pre = self.bytes();
                let v0: u8 = bitmap.data[sbase];
                let v1: u8 = bitmap.data[sbase + 1];
                let v2: u8 = bitmap.data[sbase + 2];
                let v3: u8 = bitmap.data[sbase + 3];
                self.data[dbase] = v0;
                self.data[dbase + 1] = v1;
                self.data[dbase + 2] = v2;
                self.data[dbase + 3] = v3;
                proof {
                    let b = byte_index(dwi, pxi + dx, pyi + dy, 0);
                    assert(dbase == b);
                    assert forall|c: int| 0 <= c < 4 implies self.bytes()[#[trigger] byte_index(
                        dwi,
                        pxi + dx,
                        pyi + dy,
                        c,
                    )] == bitmap.byte_at(dx as int, dy as int, c) by {}
                    assert forall|x: int, y: int, c: int|
                        0 <= x < swi && 0 <= y < dy && 0 <= c < 4 implies self.bytes()[#[trigger] byte_index(
                        dwi,
                        pxi + x,
                        pyi + y,
                        c,
                    )] == bitmap.byte_at(x, y, c) by {
                        lemma_byte_index_injective(dwi, pxi + x, pyi + y, c, pxi + dx, pyi + dy, 0);
                        lemma_byte_index_injective(dwi, pxi + x, pyi + y, c, pxi + dx, pyi + dy, 1);
                        lemma_byte_index_injective(dwi, pxi + x, pyi + y, c, pxi + dx, pyi + dy, 2);
                        lemma_byte_index_injective(dwi, pxi + x, pyi + y, c, pxi + dx, pyi + dy, 3);
                        lemma_byte_index_in_range(dwi, dhi, pxi + x, pyi + y, c);
                    }
                    assert forall|x: int, c: int|
                        0 <= x < dx && 0 <= c < 4 implies self.bytes()[#[trigger] byte_index(
                        dwi,
                        pxi + x,
                        pyi + dy,
                        c,
                    )] == bitmap.byte_at(x, dy as int, c) by {
                        lemma_byte_index_injective(dwi, pxi + x, pyi + dy, c, pxi + dx, pyi + dy, 0);
                        lemma_byte_index_injective(dwi, pxi + x, pyi + dy, c, pxi + dx, pyi + dy, 1);
                        lemma_byte_index_injective(dwi, pxi + x, pyi + dy, c, pxi + dx, pyi + dy, 2);
                        lemma_byte_index_injective(dwi, pxi + x, pyi + dy, c, pxi + dx, pyi + dy, 3);
                        lemma_byte_index_in_range(dwi, dhi, pxi + x, pyi + dy, c);
                    }
                    assert forall|x: int, y: int, c: int|
                        0 <= x < dwi && 0 <= y < dhi && 0 <= c < 4 && !(pxi <= x < pxi + swi && pyi
                            <= y < pyi + dy) && !(pyi + dy == y && pxi <= x < pxi + dx + 1) implies self.bytes()[#[trigger] byte_index(
                        dwi,
                        x,
                        y,
                        c,
                    )] == orig[byte_index(dwi, x, y, c)] by {
                        lemma_byte_index_injective(dwi, x, y, c, pxi + dx, pyi + dy, 0);
                        lemma_byte_index_injective(dwi, x, y, c, pxi + dx, pyi + dy, 1);
                        lemma_byte_index_injective(dwi, x, y, c, pxi + dx, pyi + dy, 2);
                        lemma_byte_index_injective(dwi, x, y, c, pxi + dx, pyi + dy, 3);
                        lemma_byte_index_in_range(dwi, dhi, x, y, c);
                    }
                }
                dx = dx + 1;
            }
            dy = dy + 1;
        }
    }
}

} // verus!
