//! The one-or-two container the resolution selector hands out.

use tilecore::resolution::get_tiles_fixed;
use tilecore::{OneOrTwo, TileDescr, WorldRect};

#[test]
fn one_and_two_accessors() {
    assert_eq!(OneOrTwo::One(5u32).one(), Some(5));
    assert_eq!(OneOrTwo::Two(5u32, 6u32).one(), None);
    assert_eq!(OneOrTwo::One(5u32).two(), None);
    assert_eq!(OneOrTwo::Two(5u32, 6u32).two(), Some((5, 6)));
}

#[test]
fn as_opt_requires_every_value() {
    assert_eq!(OneOrTwo::One(Some(1u32)).as_opt().and_then(|r| r.one()), Some(1));
    assert!(OneOrTwo::One(None::<u32>).as_opt().is_none());
    assert_eq!(
        OneOrTwo::Two(Some(1u32), Some(2u32)).as_opt().and_then(|r| r.two()),
        Some((1, 2))
    );
    assert!(OneOrTwo::Two(Some(1u32), None).as_opt().is_none());
    assert!(OneOrTwo::Two(None, Some(2u32)).as_opt().is_none());
}

#[test]
fn splat_duplicates_a_single_value() {
    assert_eq!(OneOrTwo::One(7u32).splat(), (7, 7));
    assert_eq!(OneOrTwo::Two(7u32, 8u32).splat(), (7, 8));
}

#[test]
fn map_applies_to_every_value() {
    let r = OneOrTwo::Two(2u32, 3u32).map(double);
    assert_eq!(r.two(), Some((4, 6)));
    let r = OneOrTwo::One(2u32).map(double);
    assert_eq!(r.one(), Some(4));
}

fn double(x: u32) -> u32 {
    x.wrapping_mul(2)
}

#[test]
fn map_carries_tile_lists() {
    // The selector's shape survives a map, as the loader relies on.
    let rect = WorldRect { min_x: 0, min_y: 0, max_x: 1, max_y: 1 };
    let tiles = get_tiles_fixed(&rect, 1);
    let counted = OneOrTwo::One(tiles).map(count);
    assert_eq!(counted.one(), Some(1));
}

fn count(v: Vec<TileDescr>) -> usize {
    v.len()
}
