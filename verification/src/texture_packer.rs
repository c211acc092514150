//! A shelf-splitting free-rectangle allocator over a fixed square area.
//!
//! The packer keeps an unordered list of free regions, initially one region
//! covering the whole area. Each allocation inflates the requested size by a
//! one-pixel border on every side, scans the list for the best candidate
//! region, splits that region into a "same row" remainder and a "next row"
//! remainder, and returns the placement shrunk back by the border. The exact
//! candidate comparison and splitting rules are part of the cache's observable
//! layout and are pinned down by `spec_try_allocate`.

use vstd::prelude::*;

use crate::dimen::URect;
use crate::dimen::UVec2;

verus! {

/// An axis-aligned rectangle of still-unused space inside the packed area.
#[derive(Debug)]
struct FreeRegion {
    rect: URect,
}

impl FreeRegion {
    #[inline]
    fn from_rectangle(rect: URect) -> (r: Self)
        ensures
            r.rect == rect,
    {
        FreeRegion { rect }
    }

    #[inline]
    fn new(width: u32, height: u32) -> (r: Self)
        ensures
            r.rect.top_left.x == 0,
            r.rect.top_left.y == 0,
            r.rect.bottom_right.x == width,
            r.rect.bottom_right.y == height,
    {
        FreeRegion::from_rectangle(URect::new(UVec2::zero(), UVec2::new(width, height)))
    }
}

#[derive(Debug, Hash, PartialEq, Eq, Clone, Copy, Structural)]
pub enum TexturePackerError {
    NotEnoughSpace,
}

/// A region can hold an allocation of `w` by `h` pixels.
pub open spec fn region_fits(r: URect, w: int, h: int) -> bool {
    r.spec_width() >= w && r.spec_height() >= h
}

/// A new candidate replaces the current best when the current best is at
/// least as large in both dimensions. This is a cheap best-fit heuristic, not
/// a true minimum-area best fit: ties keep the earliest-scanned region.
pub open spec fn replaces_best(best: URect, cand: URect) -> bool {
    best.spec_width() >= cand.spec_width() && best.spec_height() >= cand.spec_height()
}

/// The index of the region chosen by scanning `regions[i..]` for an inflated
/// `w` by `h` allocation, with `best` the best candidate seen so far.
pub open spec fn best_region_from(
    regions: Seq<URect>,
    w: int,
    h: int,
    i: int,
    best: Option<int>,
) -> Option<int>
    decreases regions.len() - i,
{
    if i < 0 || i >= regions.len() {
        best
    } else {
        let take = region_fits(regions[i], w, h) && (match best {
            None => true,
            Some(b) => replaces_best(regions[b], regions[i]),
        });
        best_region_from(regions, w, h, i + 1, if take {
            Some(i)
        } else {
            best
        })
    }
}

/// The region chosen for an inflated `w` by `h` allocation, scanning the
/// whole list.
pub open spec fn spec_best_region(regions: Seq<URect>, w: int, h: int) -> Option<int> {
    best_region_from(regions, w, h, 0, None)
}

/// The free space left below the allocation: the full width of the chosen
/// region, from the bottom of the inflated allocation down.
pub open spec fn spec_space_underneath(region: URect, size: UVec2) -> URect {
    URect {
        top_left: UVec2 { x: region.top_left.x, y: (region.top_left.y + size.y + 2) as u32 },
        bottom_right: region.bottom_right,
    }
}

/// The free space left to the right of the allocation, at the allocation's
/// own rows.
pub open spec fn spec_space_right(region: URect, size: UVec2) -> URect {
    URect {
        top_left: UVec2 { x: (region.top_left.x + size.x + 2) as u32, y: region.top_left.y },
        bottom_right: UVec2 {
            x: region.bottom_right.x,
            y: (region.top_left.y + size.y + 2) as u32,
        },
    }
}

/// The returned placement: the inflated allocation anchored at the region's
/// top-left corner, shrunk back by the one-pixel border.
pub open spec fn spec_placement(region: URect, size: UVec2) -> URect {
    URect {
        top_left: UVec2 { x: (region.top_left.x + 1) as u32, y: (region.top_left.y + 1) as u32 },
        bottom_right: UVec2 {
            x: (region.top_left.x + size.x + 1) as u32,
            y: (region.top_left.y + size.y + 1) as u32,
        },
    }
}

/// The free-region list after splitting `regions[i]` for an allocation of
/// `size`: when the right-hand space has zero area the chosen region becomes
/// the space underneath; otherwise it becomes the right-hand space, and a
/// non-empty space underneath is appended as a new region.
pub open spec fn spec_split_regions(regions: Seq<URect>, i: int, size: UVec2) -> Seq<URect> {
    let region = regions[i];
    let under = spec_space_underneath(region, size);
    let right = spec_space_right(region, size);
    if right.spec_is_zero_area() {
        regions.update(i, under)
    } else {
        if !under.spec_is_zero_area() {
            regions.update(i, right).push(under)
        } else {
            regions.update(i, right)
        }
    }
}

/// The complete outcome of one allocation over a free-region list: `None`
/// when no region can hold the inflated request, otherwise the placement and
/// the new list. A zero-width or zero-height request succeeds immediately
/// with a zero-area placement at the origin and consumes no free space.
pub open spec fn spec_try_allocate(regions: Seq<URect>, size: UVec2) -> Option<
    (URect, Seq<URect>),
> {
    if size.x == 0 || size.y == 0 {
        Some((URect { top_left: UVec2 { x: 0, y: 0 }, bottom_right: size }, regions))
    } else {
        match spec_best_region(regions, size.x + 2, size.y + 2) {
            None => None,
            Some(i) => Some(
                (spec_placement(regions[i], size), spec_split_regions(regions, i, size)),
            ),
        }
    }
}

/// A free-rectangle bin-packing allocator.
#[derive(Debug)]
pub struct TexturePacker {
    areas: Vec<FreeRegion>,
}

impl TexturePacker {
    /// The current free regions, in scan order.
    pub closed spec fn regions(self) -> Seq<URect> {
        self.areas@.map_values(|fr: FreeRegion| fr.rect)
    }

    /// Every free region has properly ordered corners.
    pub open spec fn wf(self) -> bool {
        forall|i: int|
            0 <= i < self.regions().len() ==> (#[trigger] self.regions()[i]).wf()
    }

    /// Every free region lies within a `w` by `h` area.
    pub open spec fn bounded(self, w: int, h: int) -> bool {
        forall|i: int|
            0 <= i < self.regions().len() ==> (#[trigger] self.regions()[i]).bottom_right.x <= w
                && self.regions()[i].bottom_right.y <= h
    }

    pub fn new(width: u32, height: u32) -> (r: TexturePacker)
        ensures
            r.regions().len() == 1,
            r.regions()[0].top_left.x == 0,
            r.regions()[0].top_left.y == 0,
            r.regions()[0].bottom_right.x == width,
            r.regions()[0].bottom_right.y == height,
            r.wf(),
            r.bounded(width as int, height as int),
    {
        let mut areas: Vec<FreeRegion> = Vec::new();
        areas.push(FreeRegion::new(width, height));
        TexturePacker { areas }
    }

    /// Allocate space for `size` pixels plus a one-pixel border all round.
    /// The outcome is exactly `spec_try_allocate` over the current regions.
    pub fn try_allocate(&mut self, size: UVec2) -> (res: Result<URect, TexturePackerError>)
        requires
            old(self).wf(),
            size.x <= u32::MAX - 2,
            size.y <= u32::MAX - 2,
        ensures
            final(self).wf(),
            match spec_try_allocate(old(self).regions(), size) {
                None => res == Err::<URect, TexturePackerError>(TexturePackerError::NotEnoughSpace)
                    && *final(self) == *old(self),
                Some(pr) => res == Ok::<URect, TexturePackerError>(pr.0) && final(self).regions()
                    == pr.1,
            },
            size.x == 0 || size.y == 0 ==> *final(self) == *old(self),
            forall|w: int, h: int|
                old(self).bounded(w, h) ==> final(self).bounded(w, h),
            size.x == 0 || size.y == 0 ==> res == Ok::<URect, TexturePackerError>(
                URect { top_left: UVec2 { x: 0, y: 0 }, bottom_right: size },
            ) && final(self).regions() == old(self).regions(),
            match res {
                Ok(rect) => size.x > 0 && size.y > 0 ==> rect.wf() && rect.spec_width() == size.x
                    && rect.spec_height() == size.y && (forall|w: int, h: int|
                    old(self).bounded(w, h) ==> rect.bottom_right.x + 1 <= w
                        && rect.bottom_right.y + 1 <= h),
                Err(_) => true,
            },
    {
        if size.x == 0 || size.y == 0 {
            return Ok(URect::new(UVec2::zero(), size));
        }
        // Add a one-pixel border around each texture
        let width: u32 = size.x + 2;
        let height: u32 = size.y + 2;

        let ghost w: int = width as int;
        let ghost h: int = height as int;
        let ghost all = self.regions();

        let n: usize = self.areas.len();
        let mut best_area: Option<usize> = None;
        let mut i: usize = 0;
        while i < n
            invariant
                self == old(self),
                old(self).wf(),
                n == self.areas.len(),
                all == self.regions(),
                w == size.x + 2,
                h == size.y + 2,
                width == w,
                height == h,
                i <= n,
                match best_area {
                    None => true,
                    Some(b) => b < i && region_fits(all[b as int], w, h),
                },
                best_region_from(all, w, h, i as int, opt_index(best_area)) == spec_best_region(
                    all,
                    w,
                    h,
                ),
            decreases n - i,
        {
            let ghost entry_best = best_area;
            let rect = self.areas[i].rect;
            proof {
                assert(all[i as int] == rect);
            }
            let fits = width <= rect.width() && height <= rect.height();
            if fits {
                let update_best = match best_area {
                    Some(b) => {
                        let best_rect = self.areas[b].rect;
                        proof {
                            assert(all[b as int] == best_rect);
                        }
                        best_rect.width() >= rect.width() && best_rect.height() >= rect.height()
                    },
                    None => true,
                };
                if update_best {
                    best_area = Some(i);
                }
            }
            proof {
                let take = region_fits(all[i as int], w, h) && (match opt_index(entry_best) {
                    None => true,
                    Some(b) => replaces_best(all[b], all[i as int]),
                });
                assert(fits == region_fits(all[i as int], w, h));
                assert(opt_index(best_area) == if take {
                    Some(i as int)
                } else {
                    opt_index(entry_best)
                });
                assert(best_region_from(all, w, h, i as int, opt_index(entry_best))
                    == best_region_from(all, w, h, i + 1, opt_index(best_area)));
            }
            i = i + 1;
        }

        let best: usize = match best_area {
            None => {
                return Err(TexturePackerError::NotEnoughSpace);
            },
            Some(b) => b,
        };

        let region = self.areas[best].rect;
        assert(region_fits(region, w, h));

        let top_left = region.top_left;
        let bottom_right = UVec2::new(top_left.x + width, top_left.y + height);

        let space_underneath = URect::new(
            UVec2::new(top_left.x, bottom_right.y),
            region.bottom_right,
        );
        let space_right = URect::new(
            UVec2::new(bottom_right.x, top_left.y),
            UVec2::new(region.bottom_right.x, bottom_right.y),
        );

        if space_right.is_zero_area() {
            self.areas[best] = FreeRegion::from_rectangle(space_underneath);
        } else {
            self.areas[best] = FreeRegion::from_rectangle(space_right);
            if !space_underneath.is_zero_area() {
                self.areas.push(FreeRegion::from_rectangle(space_underneath));
            }
        }

        proof {
            assert(self.regions() =~= spec_split_regions(all, best as int, size));
        }

        Ok(URect::new(
            UVec2::new(top_left.x + 1, top_left.y + 1),
            UVec2::new(bottom_right.x - 1, bottom_right.y - 1),
        ))
    }
}

/// An optional vector index, as an optional mathematical integer.
pub open spec fn opt_index(o: Option<usize>) -> Option<int> {
    match o {
        None => None,
        Some(u) => Some(u as int),
    }
}

/// The region the scan chooses is a real region that can hold the request.
pub proof fn lemma_best_region_fits(regions: Seq<URect>, w: int, h: int)
    ensures
        match spec_best_region(regions, w, h) {
            None => true,
            Some(i) => 0 <= i < regions.len() && region_fits(regions[i], w, h),
        },
{
    lemma_best_region_from_fits(regions, w, h, 0, None);
}

proof fn lemma_best_region_from_fits(regions: Seq<URect>, w: int, h: int, i: int, best: Option<int>)
    requires
        match best {
            None => true,
            Some(b) => 0 <= b < regions.len() && region_fits(regions[b], w, h),
        },
    ensures
        match best_region_from(regions, w, h, i, best) {
            None => true,
            Some(r) => 0 <= r < regions.len() && region_fits(regions[r], w, h),
        },
    decreases regions.len() - i,
{
    if 0 <= i < regions.len() {
        let take = region_fits(regions[i], w, h) && (match best {
            None => true,
            Some(b) => replaces_best(regions[b], regions[i]),
        });
        lemma_best_region_from_fits(regions, w, h, i + 1, if take {
            Some(i)
        } else {
            best
        });
    }
}

} // verus!
