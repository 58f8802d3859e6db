//! The style classifier: rule order, whitelist and blacklist predicates,
//! indeterminate lookups, minimum zoom, fallback, and pruning.

use tilecore::style::{Color, Condition, LayerSorter, LayerStyle, MyValue, Style, TypeConditions};

fn props(entries: &[(&str, MyValue)]) -> Vec<(String, MyValue)> {
    entries.iter().map(|(k, v)| (k.to_string(), v.clone())).collect()
}

fn s(v: &str) -> MyValue {
    MyValue::String(v.to_string())
}

fn fill(r: u8) -> LayerStyle {
    LayerStyle { fill: Some(Color::new(r, 0, 0)), stroke: None }
}

fn rule(key: &str, values: Vec<MyValue>, white_list: bool, style: LayerStyle) -> TypeConditions {
    TypeConditions {
        conditions: vec![Condition { key: key.to_string(), values, white_list }],
        style,
        min_zoomlevel: None,
    }
}

fn road_sorter() -> LayerSorter {
    LayerSorter {
        layer_name: "roads".to_string(),
        sub_types: vec![
            rule("class", vec![s("motorway")], true, fill(1)),
            rule("class", vec![s("motorway"), s("primary")], true, fill(2)),
        ],
        fall_back: Some(fill(9)),
    }
}

#[test]
fn first_matching_rule_wins() {
    let sorter = road_sorter();
    let motorway = props(&[("class", s("motorway"))]);
    let primary = props(&[("class", s("primary"))]);
    assert_eq!(sorter.apply(&motorway, 5).unwrap().fill, fill(1).fill);
    assert_eq!(sorter.apply(&primary, 5).unwrap().fill, fill(2).fill);
}

#[test]
fn classification_is_deterministic() {
    // Same rules, same properties, same zoom: the same bucket, every time.
    let sorter = road_sorter();
    let p = props(&[("class", s("primary")), ("bridge", MyValue::Bool(true))]);
    let first = sorter.apply(&p, 7);
    for _ in 0..10 {
        let again = sorter.apply(&p, 7);
        assert_eq!(again.unwrap().fill, first.unwrap().fill);
    }
}

#[test]
fn absent_key_fails_the_rule() {
    // A property absent from the feature map causes every predicate
    // referencing it to fail the rule - for whitelists and blacklists
    // alike - so only the fallback can apply.
    let sorter = LayerSorter {
        layer_name: "roads".to_string(),
        sub_types: vec![
            rule("class", vec![s("motorway")], true, fill(1)),
            rule("class", vec![s("motorway")], false, fill(2)),
        ],
        fall_back: Some(fill(9)),
    };
    let no_class = props(&[("bridge", MyValue::Bool(true))]);
    assert_eq!(sorter.apply(&no_class, 5).unwrap().fill, fill(9).fill);
}

#[test]
fn blacklist_matches_values_outside_the_set() {
    let sorter = LayerSorter {
        layer_name: "roads".to_string(),
        sub_types: vec![rule("class", vec![s("motorway")], false, fill(3))],
        fall_back: None,
    };
    let primary = props(&[("class", s("primary"))]);
    let motorway = props(&[("class", s("motorway"))]);
    assert_eq!(sorter.apply(&primary, 5).unwrap().fill, fill(3).fill);
    assert!(sorter.apply(&motorway, 5).is_none());
}

#[test]
fn values_compare_by_tag_and_payload() {
    // A numeric 8 is not the string "8", and float bits compare exactly.
    let sorter = LayerSorter {
        layer_name: "roads".to_string(),
        sub_types: vec![
            rule("lanes", vec![MyValue::Int(8)], true, fill(1)),
            rule("width", vec![MyValue::Float(2.5f32.to_bits())], true, fill(2)),
        ],
        fall_back: None,
    };
    assert!(sorter.apply(&props(&[("lanes", s("8"))]), 5).is_none());
    assert_eq!(
        sorter.apply(&props(&[("lanes", MyValue::Int(8))]), 5).unwrap().fill,
        fill(1).fill
    );
    assert_eq!(
        sorter
            .apply(&props(&[("width", MyValue::Float(2.5f32.to_bits()))]), 5)
            .unwrap()
            .fill,
        fill(2).fill
    );
}

#[test]
fn minimum_zoom_gates_a_rule() {
    let mut gated = rule("class", vec![s("motorway")], true, fill(1));
    gated.min_zoomlevel = Some(10);
    let sorter = LayerSorter {
        layer_name: "roads".to_string(),
        sub_types: vec![gated],
        fall_back: Some(fill(9)),
    };
    let motorway = props(&[("class", s("motorway"))]);
    assert_eq!(sorter.apply(&motorway, 9).unwrap().fill, fill(9).fill);
    assert_eq!(sorter.apply(&motorway, 10).unwrap().fill, fill(1).fill);
}

#[test]
fn empty_buckets_are_pruned_at_load_time() {
    let dead = LayerSorter {
        layer_name: "hidden".to_string(),
        sub_types: vec![rule("x", vec![s("y")], true, LayerStyle { fill: None, stroke: None })],
        fall_back: None,
    };
    let mut style = Style(vec![dead, road_sorter()]);
    assert_eq!(style.get_layer_idx("roads"), Some(1));
    style.retain_non_empty();
    assert_eq!(style.0.len(), 1);
    assert_eq!(style.get_layer_idx("roads"), Some(0));
    assert_eq!(style.get_layer_idx("hidden"), None);
    assert_eq!(style.max_layer_idx(), 0);
}
