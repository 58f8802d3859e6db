//! Decoding raw tile payloads end to end: a hand-encoded vector tile goes
//! in, classified and winding-repaired layers come out.

use tilecore::decode::decode_tile;
use tilecore::style::{Color, Condition, LayerSorter, LayerStyle, MyValue, Style, TypeConditions};
use tilecore::{TileDescr, Vector};

/// Append one protobuf varint.
fn varint(out: &mut Vec<u8>, mut v: u64) {
    loop {
        let b = (v & 0x7f) as u8;
        v >>= 7;
        if v == 0 {
            out.push(b);
            break;
        }
        out.push(b | 0x80);
    }
}

/// Append a length-delimited protobuf field.
fn bytes_field(out: &mut Vec<u8>, field: u64, data: &[u8]) {
    varint(out, (field << 3) | 2);
    varint(out, data.len() as u64);
    out.extend_from_slice(data);
}

/// Append a varint protobuf field.
fn varint_field(out: &mut Vec<u8>, field: u64, v: u64) {
    varint(out, field << 3);
    varint(out, v);
}

/// One tile with a single layer "roads" (extent 4096) holding a motorway
/// line from (10,20) via (12,20) to (12,25) and a square polygon with
/// corners (0,0) and (10,10).
fn sample_tile() -> Vec<u8> {
    // Feature 1: linestring, tags [0, 0] (class = motorway).
    let mut f1 = Vec::new();
    varint_field(&mut f1, 3, 2); // type = LINESTRING
    bytes_field(&mut f1, 2, &[0, 0]); // tags
    // MoveTo (10,20); LineTo (+2,0), (0,+5) - zigzag encoded.
    bytes_field(&mut f1, 4, &[9, 20, 40, 18, 4, 0, 0, 10]);
    // Feature 2: polygon (0,0) -> (10,0) -> (10,10) -> (0,10), closed.
    let mut f2 = Vec::new();
    varint_field(&mut f2, 3, 3); // type = POLYGON
    bytes_field(&mut f2, 4, &[9, 0, 0, 26, 20, 0, 0, 20, 19, 0, 15]);
    // Value: string "motorway".
    let mut val = Vec::new();
    bytes_field(&mut val, 1, b"motorway");
    // Layer.
    let mut layer = Vec::new();
    varint_field(&mut layer, 15, 2); // version
    bytes_field(&mut layer, 1, b"roads"); // name
    bytes_field(&mut layer, 2, &f1);
    bytes_field(&mut layer, 2, &f2);
    bytes_field(&mut layer, 3, b"class"); // keys
    bytes_field(&mut layer, 4, &val); // values
    varint_field(&mut layer, 5, 4096); // extent
    let mut tile = Vec::new();
    bytes_field(&mut tile, 3, &layer);
    tile
}

fn road_style() -> Style {
    Style(vec![LayerSorter {
        layer_name: "roads".to_string(),
        sub_types: vec![TypeConditions {
            conditions: vec![Condition {
                key: "class".to_string(),
                values: vec![MyValue::String("motorway".to_string())],
                white_list: true,
            }],
            style: LayerStyle {
                fill: Some(Color::new(30, 30, 40)),
                stroke: Some((1500, Color::new(200, 200, 210))),
            },
            min_zoomlevel: None,
        }],
        fall_back: None,
    }])
}

#[test]
fn decode_sample_tile() {
    let descr = TileDescr { z: 7, x: 66, y: 44 };
    let style = road_style();
    let (map, rewound) = decode_tile(descr, sample_tile(), &style).expect("tile decodes");
    assert_eq!(map.descr, descr);
    assert_eq!(map.layers.len(), 1);
    let layer = map.get_layer(0).expect("roads layer present");
    assert_eq!(layer.id, 0);
    assert_eq!(layer.extent, 4096);
    // The classified line came through with its exact integer coordinates.
    assert_eq!(layer.paths.len(), 1);
    let line = &layer.paths[0].1;
    assert_eq!(
        line.0,
        vec![
            Vector { x: 10, y: 20 },
            Vector { x: 12, y: 20 },
            Vector { x: 12, y: 25 },
        ]
    );
    // The polygon carries no properties, so the class rule fails for it
    // and, with no fallback style, it is not drawn.
    assert_eq!(layer.areas.len(), 0);
    assert!(!rewound);
    // Untracked bucket indices have no layer.
    assert!(map.get_layer(1).is_none());
}

#[test]
fn decode_fallback_catches_polygon() {
    // With a fallback style on the bucket, the property-less polygon is
    // kept as well, and its winding is already correct.
    let descr = TileDescr { z: 7, x: 66, y: 44 };
    let mut style = road_style();
    style.0[0].fall_back = Some(LayerStyle {
        fill: Some(Color::new(1, 2, 3)),
        stroke: None,
    });
    let (map, rewound) = decode_tile(descr, sample_tile(), &style).expect("tile decodes");
    let layer = map.get_layer(0).expect("roads layer present");
    assert_eq!(layer.paths.len(), 1);
    assert_eq!(layer.areas.len(), 1);
    let outer = &layer.areas[0].1.outer;
    // ClosePath repeats the first point; the ring is counter-clockwise
    // under the y-down convention, so nothing was flipped.
    assert_eq!(
        outer.0,
        vec![
            Vector { x: 0, y: 0 },
            Vector { x: 10, y: 0 },
            Vector { x: 10, y: 10 },
            Vector { x: 0, y: 10 },
            Vector { x: 0, y: 0 },
        ]
    );
    assert!(outer.get_signed_area_sum() > 0);
    assert!(!rewound);
}

#[test]
fn decode_empty_payload_is_empty_tile() {
    let descr = TileDescr { z: 1, x: 0, y: 0 };
    let style = road_style();
    let (map, rewound) = decode_tile(descr, Vec::new(), &style).expect("empty tile decodes");
    assert_eq!(map.layers.len(), 0);
    assert!(!rewound);
}

#[test]
fn decode_garbage_fails() {
    let descr = TileDescr { z: 1, x: 0, y: 0 };
    let style = road_style();
    let r = decode_tile(descr, vec![0xff, 0xff, 0xff], &style);
    assert_eq!(r.unwrap_err(), tilecore::DecodeError::Tile);
}

#[test]
fn unsupported_layer_version_fails_the_layer_table() {
    // A layer of version 99: the layer table itself is refused.
    let mut layer = Vec::new();
    varint_field(&mut layer, 15, 99);
    bytes_field(&mut layer, 1, b"roads");
    let mut tile = Vec::new();
    bytes_field(&mut tile, 3, &layer);
    let r = decode_tile(TileDescr { z: 1, x: 0, y: 0 }, tile, &road_style());
    assert_eq!(r.unwrap_err(), tilecore::DecodeError::Layers);
}

#[test]
fn malformed_geometry_fails_the_features() {
    // A polygon that closes its path before any coordinate exists.
    let mut f = Vec::new();
    varint_field(&mut f, 3, 3); // type = POLYGON
    bytes_field(&mut f, 4, &[15]); // ClosePath with an empty ring
    let mut layer = Vec::new();
    varint_field(&mut layer, 15, 2);
    bytes_field(&mut layer, 1, b"roads");
    bytes_field(&mut layer, 2, &f);
    let mut tile = Vec::new();
    bytes_field(&mut tile, 3, &layer);
    let r = decode_tile(TileDescr { z: 1, x: 0, y: 0 }, tile, &road_style());
    assert_eq!(r.unwrap_err(), tilecore::DecodeError::Features);
}
