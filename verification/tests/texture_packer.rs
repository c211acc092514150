use glyph_cache::dimen::URect;
use glyph_cache::dimen::UVec2;
use glyph_cache::texture_packer::TexturePacker;
use glyph_cache::texture_packer::TexturePackerError::NotEnoughSpace;

#[test]
fn pack_test_fill_four_squares() {
    let mut packer = TexturePacker::new(64, 64);

    assert_eq!(
        Ok(URect::from_tuples((1, 1), (31, 31))),
        packer.try_allocate(UVec2::new(30, 30))
    );

    assert_eq!(
        Ok(URect::from_tuples((33, 1), (63, 31))),
        packer.try_allocate(UVec2::new(30, 30))
    );

    assert_eq!(
        Ok(URect::from_tuples((1, 33), (31, 63))),
        packer.try_allocate(UVec2::new(30, 30))
    );

    assert_eq!(
        Ok(URect::from_tuples((33, 33), (63, 63))),
        packer.try_allocate(UVec2::new(30, 30))
    );

    assert_eq!(Err(NotEnoughSpace), packer.try_allocate(UVec2::new(30, 30)));
}

#[test]
fn pack_test_nonfill_four_squares() {
    let mut packer = TexturePacker::new(64, 64);

    assert_eq!(
        Ok(URect::from_tuples((1, 1), (29, 29))),
        packer.try_allocate(UVec2::new(28, 28))
    );

    assert_eq!(
        Ok(URect::from_tuples((31, 1), (59, 29))),
        packer.try_allocate(UVec2::new(28, 28))
    );

    assert_eq!(
        Ok(URect::from_tuples((1, 31), (29, 59))),
        packer.try_allocate(UVec2::new(28, 28))
    );

    assert_eq!(
        Ok(URect::from_tuples((31, 31), (59, 59))),
        packer.try_allocate(UVec2::new(28, 28))
    );

    assert_eq!(Err(NotEnoughSpace), packer.try_allocate(UVec2::new(30, 30)));
}

#[test]
fn pack_test_uneven_squares() {
    let mut packer = TexturePacker::new(64, 64);

    assert_eq!(
        Ok(URect::from_tuples((1, 1), (15, 15))),
        packer.try_allocate(UVec2::new(14, 14))
    );

    assert_eq!(
        Ok(URect::from_tuples((1, 17), (15, 47))),
        packer.try_allocate(UVec2::new(14, 30))
    );

    assert_eq!(
        Ok(URect::from_tuples((17, 17), (47, 47))),
        packer.try_allocate(UVec2::new(30, 30))
    );

    assert_eq!(
        Ok(URect::from_tuples((17, 1), (31, 15))),
        packer.try_allocate(UVec2::new(14, 14))
    );
}

#[test]
fn pack_zero_size_requests_always_succeed() {
    let mut packer = TexturePacker::new(64, 64);

    // A zero-width or zero-height request succeeds with a zero-area
    // placement at the origin and consumes no free-region state.
    assert_eq!(
        Ok(URect::from_tuples((0, 0), (0, 5))),
        packer.try_allocate(UVec2::new(0, 5))
    );
    assert_eq!(
        Ok(URect::from_tuples((0, 0), (7, 0))),
        packer.try_allocate(UVec2::new(7, 0))
    );
    assert_eq!(
        Ok(URect::from_tuples((0, 0), (0, 0))),
        packer.try_allocate(UVec2::new(0, 0))
    );

    // The next real allocation still starts in the untouched corner.
    assert_eq!(
        Ok(URect::from_tuples((1, 1), (31, 31))),
        packer.try_allocate(UVec2::new(30, 30))
    );
}

#[test]
fn pack_too_large_request_fails() {
    let mut packer = TexturePacker::new(64, 64);

    // The inflated request must fit: 63 + 2 > 64.
    assert_eq!(Err(NotEnoughSpace), packer.try_allocate(UVec2::new(63, 63)));
    // 62 + 2 == 64 just fits.
    assert_eq!(
        Ok(URect::from_tuples((1, 1), (63, 63))),
        packer.try_allocate(UVec2::new(62, 62))
    );
}
