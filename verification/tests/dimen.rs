use glyph_cache::dimen::IVec2;

#[test]
fn test_arithmetic() {
    assert_eq!(IVec2::new(15, 20), IVec2::new(10, 4).add(IVec2::new(5, 16)));

    assert_eq!(IVec2::new(5, -12), IVec2::new(10, 4).sub(IVec2::new(5, 16)));

    assert_eq!(IVec2::new(-5, 10), IVec2::new(3, 10).sub(IVec2::new(8, 0)));

    assert_eq!(IVec2::new(-5, 17), IVec2::new(-5, 10).add(IVec2::new(0, 7)));
}

#[test]
fn test_add_assign() {
    let mut left = IVec2::new(1, 2);
    let right = IVec2::new(3, 4);
    left = left.add(right);
    assert_eq!(left, IVec2::new(4, 6));
}

#[test]
fn test_sub_assign() {
    let mut left = IVec2::new(9, 8);
    let right = IVec2::new(1, 2);
    left = left.sub(right);
    assert_eq!(left, IVec2::new(8, 6));
}

#[test]
fn test_mul_assign() {
    let mut left = IVec2::new(2, 3);
    left = left.mul(5);
    assert_eq!(left, IVec2::new(10, 15));
}

#[test]
fn test_div_assign() {
    let mut left = IVec2::new(12, 8);
    left = left.div(2);
    assert_eq!(left, IVec2::new(6, 4));
}

#[test]
fn test_div_truncates_toward_zero() {
    assert_eq!(IVec2::new(-7, 7).div(2), IVec2::new(-3, 3));
}
