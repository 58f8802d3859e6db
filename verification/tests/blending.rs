//! Resolution blending: which zoom levels a continuous zoom requests and
//! with which crossfade weights, and the tile enumeration of a view.

use tilecore::resolution::{
    fade_in_function, fade_out_function, get_tiles_at, get_tiles_fixed, zoom_levels, WEIGHT_ONE,
};
use tilecore::{OneOrTwo, TileDescr, WorldRect};

#[test]
fn low_sub_band_requests_one_level_at_full_weight() {
    // Zoom 2.0 through 2.24 lies below the crossfade band [0.25, 0.75).
    for zm in [2000u32, 2100, 2240, 2249] {
        let lw = zoom_levels(zm).one().expect("one level");
        assert_eq!(lw.level, 2);
        assert_eq!(lw.weight, WEIGHT_ONE);
    }
}

#[test]
fn crossfade_band_requests_two_levels_with_partial_weights() {
    // Zoom 2.5: both levels, each weight strictly between 0 and 1, and
    // the two weights sum to exactly one.
    let (lo, hi) = zoom_levels(2500).two().expect("two levels");
    assert_eq!(lo.level, 2);
    assert_eq!(hi.level, 3);
    assert!(0 < lo.weight && lo.weight < WEIGHT_ONE);
    assert!(0 < hi.weight && hi.weight < WEIGHT_ONE);
    assert_eq!(lo.weight + hi.weight, WEIGHT_ONE);
    // The midpoint of the band fades exactly half in.
    assert_eq!(hi.weight, WEIGHT_ONE / 2);
}

#[test]
fn high_sub_band_requests_the_next_level_at_full_weight() {
    let lw = zoom_levels(2900).one().expect("one level");
    assert_eq!(lw.level, 3);
    assert_eq!(lw.weight, WEIGHT_ONE);
}

#[test]
fn maximum_zoom_is_clamped() {
    for zm in [14000u32, 14500, 20000] {
        let lw = zoom_levels(zm).one().expect("one level");
        assert_eq!(lw.level, 14);
        assert_eq!(lw.weight, WEIGHT_ONE);
    }
}

#[test]
fn fade_pair_is_complementary_and_edge_flat() {
    assert_eq!(fade_in_function(250), 0);
    assert_eq!(fade_out_function(250), WEIGHT_ONE);
    assert_eq!(fade_in_function(750), WEIGHT_ONE);
    assert_eq!(fade_out_function(750), 0);
    for frac in [250u32, 300, 500, 700, 750] {
        assert_eq!(fade_in_function(frac) + fade_out_function(frac), WEIGHT_ONE);
    }
    // Nearly flat at the edges: one milli-zoom into the band moves the
    // weight by about a hundred-thousandth, far below the linear slope.
    assert!(fade_in_function(251) < WEIGHT_ONE / 50000);
    assert!(fade_in_function(749) > WEIGHT_ONE - WEIGHT_ONE / 50000);
}

#[test]
fn tiles_cover_the_clamped_index_range() {
    // The north-west quarter of the world at zoom 1 is a single tile.
    let rect = WorldRect { min_x: 0, min_y: 0, max_x: 1 << 30, max_y: 1 << 30 };
    let tiles = get_tiles_fixed(&rect, 1);
    assert_eq!(tiles, vec![TileDescr { z: 1, x: 0, y: 0 }]);
    // A rectangle spanning the center of the world touches all four.
    let rect = WorldRect {
        min_x: (1u64 << 31) - 1,
        min_y: (1u64 << 31) - 1,
        max_x: 1 << 31,
        max_y: 1 << 31,
    };
    let tiles = get_tiles_fixed(&rect, 1);
    assert_eq!(
        tiles,
        vec![
            TileDescr { z: 1, x: 0, y: 0 },
            TileDescr { z: 1, x: 0, y: 1 },
            TileDescr { z: 1, x: 1, y: 0 },
            TileDescr { z: 1, x: 1, y: 1 },
        ]
    );
    // The world's far edge clamps into the last row and column.
    let rect = WorldRect { min_x: u64::MAX, min_y: u64::MAX, max_x: u64::MAX, max_y: u64::MAX };
    let tiles = get_tiles_fixed(&rect, 2);
    assert_eq!(tiles, vec![TileDescr { z: 2, x: 3, y: 3 }]);
}

#[test]
fn integer_zoom_requests_a_single_level() {
    // A view on an exact integer zoom never pulls the adjacent level in.
    let rect = WorldRect {
        min_x: 1 << 29,
        min_y: 1 << 29,
        max_x: 3 << 29,
        max_y: 3 << 29,
    };
    match get_tiles_at(&rect, 3000) {
        OneOrTwo::One((lw, tiles)) => {
            assert_eq!(lw.level, 3);
            assert_eq!(lw.weight, WEIGHT_ONE);
            assert!(!tiles.is_empty());
            for t in &tiles {
                assert_eq!(t.z, 3);
                assert!(t.valid());
            }
        },
        OneOrTwo::Two(_, _) => panic!("integer zoom must use one level"),
    }
}
