//! Tile addresses: grid validity, locator and file-name rendering, and
//! the file-name scan of the cache directory.

use tilecore::TileDescr;

#[test]
fn validity_follows_the_grid() {
    // At zoom z the grid is 2^z by 2^z.
    assert!(TileDescr { z: 0, x: 0, y: 0 }.valid());
    assert!(!TileDescr { z: 0, x: 1, y: 0 }.valid());
    assert!(!TileDescr { z: 0, x: 0, y: 1 }.valid());
    assert!(TileDescr { z: 2, x: 3, y: 3 }.valid());
    assert!(!TileDescr { z: 2, x: 4, y: 3 }.valid());
    assert!(!TileDescr { z: 2, x: 3, y: 4 }.valid());
    assert!(TileDescr { z: 14, x: 16383, y: 0 }.valid());
    assert!(!TileDescr { z: 14, x: 16384, y: 0 }.valid());
    // Beyond 32 levels every u32 column and row fits.
    assert!(TileDescr { z: 40, x: u32::MAX, y: u32::MAX }.valid());
}

#[test]
fn locator_substitutes_the_template() {
    let t = TileDescr { z: 7, x: 66, y: 44 };
    assert_eq!(
        t.to_url(),
        "https://vector.openstreetmap.org/shortbread_v1/7/66/44.mvt"
    );
    assert_eq!(t.to_file_name(), "7_66_44.mvt");
    let t0 = TileDescr { z: 0, x: 0, y: 0 };
    assert_eq!(t0.to_file_name(), "0_0_0.mvt");
}

#[test]
fn file_names_round_trip() {
    let tiles = [
        TileDescr { z: 7, x: 66, y: 44 },
        TileDescr { z: 0, x: 0, y: 0 },
        TileDescr { z: 14, x: 16383, y: 12345 },
    ];
    for t in tiles {
        assert_eq!(TileDescr::parse_file_name(&t.to_file_name()), Some(t));
    }
}

#[test]
fn malformed_file_names_are_skipped() {
    for name in [
        "",
        "7_66.mvt",
        "7_66_44",
        "7_66_44.png",
        "07_66_44.mvt",
        "7_66_44_.mvt",
        "a_b_c.mvt",
        "7_66_-44.mvt",
        "7__44.mvt",
        "4294967296_0_0.mvt",
    ] {
        assert_eq!(TileDescr::parse_file_name(name), None, "{name}");
    }
}
