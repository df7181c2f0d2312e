use std::cmp::Ordering;

use bhava::Mask;

#[test]
fn mask_floor_and_ceil() {
    assert_eq!(Mask::Byte(4).floor(), 4);
    assert_eq!(Mask::Byte(4).ceil(), 4);
    assert_eq!(Mask::Bit(4, 3, 1).floor(), 4);
    assert_eq!(Mask::Bit(4, 3, 1).ceil(), 7);
}

#[test]
fn mask_sub_moves_towards_start() {
    assert_eq!(Mask::Byte(9).sub(4), Mask::Byte(5));
    assert_eq!(Mask::Bit(9, 2, 3).sub(9), Mask::Bit(0, 2, 3));
}

#[test]
fn mask_order() {
    assert_eq!(Mask::Byte(1).partial_cmp(&Mask::Byte(2)), Some(Ordering::Less));
    assert_eq!(Mask::Byte(2).partial_cmp(&Mask::Byte(2)), Some(Ordering::Equal));
    assert_eq!(Mask::Bit(3, 1, 0).partial_cmp(&Mask::Byte(2)), Some(Ordering::Greater));
    assert_eq!(Mask::Byte(3).partial_cmp(&Mask::Bit(3, 8, 0)), Some(Ordering::Equal));
    assert_eq!(Mask::Bit(3, 1, 2).partial_cmp(&Mask::Bit(3, 1, 5)), Some(Ordering::Less));
    assert_eq!(Mask::Bit(3, 1, 7).partial_cmp(&Mask::Bit(2, 1, 0)), Some(Ordering::Greater));
    assert!(Mask::Byte(1) < Mask::Bit(2, 1, 0));
}
