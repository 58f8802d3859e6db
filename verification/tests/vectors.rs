//! Integer vectors and their Euclidean norm.

use tilecore::Vector;

#[test]
fn norm() {
    assert_eq!(Vector::new(1, 0).norm(), 1);
    assert_eq!(Vector::new(0, 0).norm(), 0);
    assert_eq!(Vector::new(0, 1).norm(), 1);
    assert_eq!(Vector::new(4, 3).norm(), 5);
    assert_eq!(Vector::new(3, 4).norm(), 5);
    assert_eq!(Vector::new(-3, 4).norm(), 5);
    assert_eq!(Vector::new(-3, -4).norm(), 5);
    assert_eq!(Vector::new(3, -4).norm(), 5);
}

#[test]
fn norm_rounds_down() {
    assert_eq!(Vector::new(1, 1).norm(), 1);
    assert_eq!(Vector::new(3, 3).norm(), 4);
    assert_eq!(Vector::zeros().norm(), 0);
    assert_eq!(Vector::new(i64::MIN, 0).norm(), 1u64 << 63);
}
