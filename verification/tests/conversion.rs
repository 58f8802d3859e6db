//! Sorting raw feature geometry into a layer's path and area lists, and
//! the first-match lookup of a tile's layers.

use tilecore::decode::{convert_geometry, GeomParts, Layer, MapData};
use tilecore::style::{Color, LayerStyle};
use tilecore::{Area, Path, TileDescr, Vector};

fn v(x: i64, y: i64) -> Vector {
    Vector { x, y }
}

fn style_with(r: u8) -> LayerStyle {
    LayerStyle { fill: Some(Color::new(r, 0, 0)), stroke: None }
}

#[test]
fn lines_append_to_paths_in_order() {
    let mut paths = Vec::new();
    let mut areas = Vec::new();
    let st = style_with(1);
    convert_geometry(
        GeomParts::Lines(vec![Path(vec![v(1, 2), v(3, 4)]), Path(vec![v(5, 6)])]),
        st,
        &mut paths,
        &mut areas,
    );
    assert_eq!(paths.len(), 2);
    assert_eq!(paths[0].1 .0, vec![v(1, 2), v(3, 4)]);
    assert_eq!(paths[1].1 .0, vec![v(5, 6)]);
    assert_eq!(paths[0].0.fill, st.fill);
    assert!(areas.is_empty());
    // A second feature's geometry appends after the first.
    convert_geometry(
        GeomParts::Lines(vec![Path(vec![v(9, 9)])]),
        style_with(2),
        &mut paths,
        &mut areas,
    );
    assert_eq!(paths.len(), 3);
    assert_eq!(paths[2].1 .0, vec![v(9, 9)]);
}

#[test]
fn polygons_append_to_areas_and_points_vanish() {
    let mut paths = Vec::new();
    let mut areas = Vec::new();
    convert_geometry(
        GeomParts::Polygons(vec![Area {
            outer: Path(vec![v(0, 0), v(4, 0), v(4, 4)]),
            inner: vec![],
        }]),
        style_with(3),
        &mut paths,
        &mut areas,
    );
    assert!(paths.is_empty());
    assert_eq!(areas.len(), 1);
    convert_geometry(GeomParts::Points, style_with(4), &mut paths, &mut areas);
    assert!(paths.is_empty());
    assert_eq!(areas.len(), 1);
}

#[test]
fn get_layer_returns_the_first_of_equal_buckets() {
    let mk = |id: u8, extent: u32| Layer { id, extent, paths: Vec::new(), areas: Vec::new() };
    let map = MapData {
        descr: TileDescr { z: 1, x: 0, y: 0 },
        layers: vec![mk(1, 100), mk(2, 200), mk(2, 300), mk(5, 500)],
    };
    assert_eq!(map.get_layer(2).expect("bucket 2 exists").extent, 200);
    assert_eq!(map.get_layer(5).expect("bucket 5 exists").extent, 500);
    assert!(map.get_layer(0).is_none());
    assert!(map.get_layer(3).is_none());
}
