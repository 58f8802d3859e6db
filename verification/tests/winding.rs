//! Winding enforcement: outer rings end up counter-clockwise (positive
//! signed area under the y-down convention), holes clockwise, repairs are
//! reported, and a second run never flips anything.

use tilecore::{Area, Path, Vector};

fn v(x: i64, y: i64) -> Vector {
    Vector { x, y }
}

/// A square ring with positive signed area (counter-clockwise, y-down).
fn ccw_square() -> Vec<Vector> {
    vec![v(0, 0), v(10, 0), v(10, 10), v(0, 10)]
}

/// The same square the other way round: negative signed area.
fn cw_square() -> Vec<Vector> {
    vec![v(0, 10), v(10, 10), v(10, 0), v(0, 0)]
}

#[test]
fn correct_area_is_untouched() {
    let mut a = Area { outer: Path(ccw_square()), inner: vec![Path(cw_square())] };
    let flipped = a.enforce_winding();
    assert!(!flipped);
    assert_eq!(a.outer.0, ccw_square());
    assert_eq!(a.inner[0].0, cw_square());
    assert!(a.outer.get_signed_area_sum() > 0);
    assert!(a.inner[0].get_signed_area_sum() < 0);
}

#[test]
fn wrong_windings_are_repaired_and_reported() {
    let mut a = Area { outer: Path(cw_square()), inner: vec![Path(ccw_square())] };
    let flipped = a.enforce_winding();
    assert!(flipped);
    assert!(a.outer.get_signed_area_sum() > 0);
    assert!(a.inner[0].get_signed_area_sum() < 0);
    // Reversal, not any other rewrite: the points run backwards.
    let mut expect_outer = cw_square();
    expect_outer.reverse();
    assert_eq!(a.outer.0, expect_outer);
}

#[test]
fn second_run_is_a_no_op() {
    let mut a = Area { outer: Path(cw_square()), inner: vec![Path(ccw_square())] };
    assert!(a.enforce_winding());
    let outer_after = a.outer.0.clone();
    let inner_after = a.inner[0].0.clone();
    // Applying the repair again never flips anything already correct.
    assert!(!a.enforce_winding());
    assert_eq!(a.outer.0, outer_after);
    assert_eq!(a.inner[0].0, inner_after);
}

#[test]
fn degenerate_rings_count_as_zero_area() {
    // Fewer than 3 points: signed area 0, left unmodified, no repair.
    let mut a = Area { outer: Path(vec![v(5, 5), v(9, 2)]), inner: vec![Path(vec![v(1, 1)])] };
    let flipped = a.enforce_winding();
    assert!(!flipped);
    assert_eq!(a.outer.0, vec![v(5, 5), v(9, 2)]);
    assert_eq!(a.outer.get_signed_area_sum(), 0);
    assert_eq!(a.inner[0].get_signed_area_sum(), 0);
}

#[test]
fn signed_area_is_the_shoelace_sum() {
    // Twice the enclosed area: the 10 by 10 square gives 200.
    assert_eq!(Path(ccw_square()).get_signed_area_sum(), 200);
    assert_eq!(Path(cw_square()).get_signed_area_sum(), -200);
}
