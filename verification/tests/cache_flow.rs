//! The cache's load path: hit, disk, fetch, corruption recovery and
//! idempotence, driven exactly as the I/O driver would drive it.

use tilecore::decode::decode_tile;
use tilecore::style::Style;
use tilecore::{LoadAction, MapData, MvtGetter, TileDescr};

fn decoded(t: TileDescr) -> MapData {
    // An empty payload decodes to a tile with no layers.
    let style = Style(Vec::new());
    decode_tile(t, Vec::new(), &style).expect("empty payload decodes").0
}

#[test]
fn cold_cache_fetches() {
    let getter = MvtGetter::new();
    let t = TileDescr { z: 7, x: 66, y: 44 };
    assert_eq!(getter.next_action(t), LoadAction::Fetch);
    assert!(getter.get_tile(t).is_none());
}

#[test]
fn known_disk_entry_is_tried_first() {
    let mut getter = MvtGetter::new();
    let t = TileDescr { z: 7, x: 66, y: 44 };
    getter.note_disk_entry(t);
    assert_eq!(getter.next_action(t), LoadAction::TryDisk);
    // A successful disk read decodes into memory; the entry stays known.
    getter.insert_from_disk(t, decoded(t));
    assert_eq!(getter.next_action(t), LoadAction::Ready);
    assert!(getter.contains_disk(t));
    assert!(getter.get_tile(t).is_some());
}

#[test]
fn corrupt_disk_entry_recovers_through_a_fetch() {
    // Seed a disk entry whose bytes turn out corrupt, then run the load
    // path: eviction, a network fetch, a rewritten disk entry - and the
    // address ends up back in the known-disk set, not excluded for good.
    let mut getter = MvtGetter::new();
    let t = TileDescr { z: 7, x: 66, y: 44 };
    getter.note_disk_entry(t);
    assert_eq!(getter.next_action(t), LoadAction::TryDisk);
    // The driver finds the file undecodable and reports the corruption.
    let style = Style(Vec::new());
    assert!(decode_tile(t, vec![0xff, 0xff, 0xff], &style).is_err());
    getter.drop_disk_entry(t);
    assert!(!getter.contains_disk(t));
    assert_eq!(getter.next_action(t), LoadAction::Fetch);
    // The fetch succeeds; the tile is decoded, persisted and recorded.
    getter.insert_fetched(t, decoded(t));
    assert_eq!(getter.next_action(t), LoadAction::Ready);
    assert!(getter.contains_disk(t));
    let m = getter.get_tile(t).expect("tile is in memory");
    assert_eq!(m.descr, t);
}

#[test]
fn ensure_loaded_is_idempotent() {
    // Once loaded, loading again performs no work and observes the
    // identical decoded tile.
    let mut getter = MvtGetter::new();
    let t = TileDescr { z: 3, x: 2, y: 5 };
    getter.insert_fetched(t, decoded(t));
    assert_eq!(getter.next_action(t), LoadAction::Ready);
    let first = getter.get_tile(t).expect("loaded").descr;
    assert_eq!(getter.next_action(t), LoadAction::Ready);
    let second = getter.get_tile(t).expect("still loaded").descr;
    assert_eq!(first, second);
}

#[test]
fn batch_loads_in_request_order_and_skips_loaded() {
    let mut getter = MvtGetter::new();
    let a = TileDescr { z: 2, x: 0, y: 0 };
    let b = TileDescr { z: 2, x: 1, y: 0 };
    let c = TileDescr { z: 2, x: 2, y: 0 };
    getter.insert_fetched(b, decoded(b));
    let missing = getter.missing_tiles(&vec![a, b, c]);
    assert_eq!(missing, vec![a, c]);
    getter.insert_fetched(a, decoded(a));
    getter.insert_fetched(c, decoded(c));
    assert_eq!(getter.missing_tiles(&vec![a, b, c]), Vec::<TileDescr>::new());
}

#[test]
fn eviction_touches_only_its_address() {
    let mut getter = MvtGetter::new();
    let a = TileDescr { z: 2, x: 0, y: 0 };
    let b = TileDescr { z: 2, x: 1, y: 0 };
    getter.note_disk_entry(a);
    getter.note_disk_entry(b);
    getter.note_disk_entry(b);
    getter.drop_disk_entry(a);
    assert!(!getter.contains_disk(a));
    assert!(getter.contains_disk(b));
}
