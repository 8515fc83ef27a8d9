use ahc001::geom::{Rect, L};
use ahc001::grid::{bit_separate, children_gid_range, get_gid, parent_gid, point_to_leaf_gid};

#[test]
fn main_test_bit_separate() {
    assert_eq!(bit_separate(0b000000), 0b000000);
    assert_eq!(bit_separate(0b000001), 0b000001);
    assert_eq!(bit_separate(0b000111), 0b010101);
    assert_eq!(bit_separate(0b000100), 0b010000);
    assert_eq!(bit_separate(0b000101), 0b010001);
}

#[test]
fn main_test_point_to_leaf_gid() {
    assert_eq!(point_to_leaf_gid(0, 0), 0);
    assert_eq!(point_to_leaf_gid(L - 1, L - 1), 4 * 4 - 1);
}

#[test]
fn lib_test_bit_separate() {
    assert_eq!(bit_separate(0b000000), 0b000000);
    assert_eq!(bit_separate(0b000001), 0b000001);
    assert_eq!(bit_separate(0b000111), 0b010101);
    assert_eq!(bit_separate(0b000100), 0b010000);
    assert_eq!(bit_separate(0b000101), 0b010001);
}

#[test]
fn lib_test_point_to_leaf_gid() {
    assert_eq!(point_to_leaf_gid(0, 0), 0);
    assert_eq!(point_to_leaf_gid(L - 1, L - 1), 4 * 4 - 1);
}

#[test]
fn test_children_grid_range() {
    assert_eq!(children_gid_range(1), 5..9);
    assert_eq!(children_gid_range(2), 9..13);
}

#[test]
fn gid_of_small_and_spanning_rects() {
    // A small rectangle in the lower-left leaf cell.
    let small = Rect::new(0, 100, 0, 100);
    assert_eq!(get_gid(&small), 5);
    // A rectangle spanning the whole space is registered at the root.
    let all = Rect::new(0, L, 0, L);
    assert_eq!(get_gid(&all), 0);
    // A rectangle crossing the vertical midline within the left half.
    let tall = Rect::new(0, 100, 0, 5000);
    assert_eq!(get_gid(&tall), 1);
}

#[test]
fn gid_is_pure_in_the_corners() {
    // Two rectangles with the same corners get the same group id.
    let a = Rect::new(42, 977, 3_100, 3_355);
    let b = Rect::new(42, 977, 3_100, 3_355);
    assert_eq!(get_gid(&a), get_gid(&b));
}

#[test]
fn parent_of_each_layer() {
    assert_eq!(parent_gid(0), 0);
    assert_eq!(parent_gid(3), 0);
    assert_eq!(parent_gid(5), 1);
    assert_eq!(parent_gid(8), 1);
    assert_eq!(parent_gid(9), 2);
    assert_eq!(parent_gid(20), 4);
}
