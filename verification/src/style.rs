//! The style classifier: an ordered rule set mapping (layer name, feature
//! properties, zoom) to a display style, or to nothing.
//!
//! Rules are evaluated top to bottom; the first rule whose predicates all
//! hold wins; a property key absent from the feature map makes every
//! predicate that references it fail (the rule is skipped, never matched
//! by default). If no conditional rule matches, the layer's optional
//! unconditional fallback style applies; if neither, the feature is not
//! drawn.

use vstd::prelude::*;

use crate::tile::str_eq;

verus! {

/// An sRGB color.
#[derive(Clone, Copy, Debug, PartialEq, Eq, Structural)]
pub struct Color {
    pub r: u8,
    pub g: u8,
    pub b: u8,
}

impl Color {
    pub fn new(r: u8, g: u8, b: u8) -> (c: Self)
        ensures
            c == (Color { r, g, b }),
    {
        Self { r, g, b }
    }
}

/// A feature property value: the tagged variants a vector tile can carry.
///
/// Floating-point properties are carried as their raw bit patterns
/// (`Float` holds the 32 bits, `Double` the 64 bits): the classifier only
/// ever compares property values for equality, tag-aware and without
/// coercion, so the bits are all it reads.
#[derive(Debug, Clone)]
pub enum MyValue {
    String(String),
    Float(u32),
    Double(u64),
    Int(i64),
    UInt(u64),
    SInt(i64),
    Bool(bool),
    Null,
}

/// Tag-aware equality of two property values; strings compare by their
/// characters, everything else by tag and payload.
pub open spec fn value_eq(a: MyValue, b: MyValue) -> bool {
    match (a, b) {
        (MyValue::String(x), MyValue::String(y)) => x@ == y@,
        (MyValue::Float(x), MyValue::Float(y)) => x == y,
        (MyValue::Double(x), MyValue::Double(y)) => x == y,
        (MyValue::Int(x), MyValue::Int(y)) => x == y,
        (MyValue::UInt(x), MyValue::UInt(y)) => x == y,
        (MyValue::SInt(x), MyValue::SInt(y)) => x == y,
        (MyValue::Bool(x), MyValue::Bool(y)) => x == y,
        (MyValue::Null, MyValue::Null) => true,
        _ => false,
    }
}

impl MyValue {
    /// Tag-aware equality test.
    pub fn eq_value(&self, o: &MyValue) -> (r: bool)
        ensures
            r == value_eq(*self, *o),
    {
        match (self, o) {
            (MyValue::String(x), MyValue::String(y)) => str_eq(x.as_str(), y.as_str()),
            (MyValue::Float(x), MyValue::Float(y)) => *x == *y,
            (MyValue::Double(x), MyValue::Double(y)) => *x == *y,
            (MyValue::Int(x), MyValue::Int(y)) => *x == *y,
            (MyValue::UInt(x), MyValue::UInt(y)) => *x == *y,
            (MyValue::SInt(x), MyValue::SInt(y)) => *x == *y,
            (MyValue::Bool(x), MyValue::Bool(y)) => *x == *y,
            (MyValue::Null, MyValue::Null) => true,
            _ => false,
        }
    }
}

/// Whether `vals` contains a value equal to `v` under tag-aware equality.
pub open spec fn contains_value(vals: Seq<MyValue>, v: MyValue) -> bool {
    exists|i: int| 0 <= i < vals.len() && value_eq(#[trigger] vals[i], v)
}

/// The value of the first property named `key`, if any.
pub open spec fn lookup(props: Seq<(String, MyValue)>, key: Seq<char>) -> Option<MyValue>
    decreases props.len(),
{
    if props.len() == 0 {
        None
    } else if props[0].0@ == key {
        Some(props[0].1)
    } else {
        lookup(props.drop_first(), key)
    }
}

/// A first-match lookup ignores everything before the first hit.
proof fn lemma_lookup_skip(props: Seq<(String, MyValue)>, key: Seq<char>, i: int)
    requires
        0 <= i <= props.len(),
        forall|j: int| 0 <= j < i ==> (#[trigger] props[j]).0@ != key,
    ensures
        lookup(props, key) == lookup(props.skip(i), key),
    decreases i,
{
    if i > 0 {
        lemma_lookup_skip(props, key, i - 1);
        assert(props.skip(i - 1).drop_first() =~= props.skip(i));
        assert(props.skip(i - 1)[0] == props[i - 1]);
    } else {
        assert(props.skip(0) =~= props);
    }
}

/// The display style of one classifier bucket: an optional fill color and
/// an optional stroke. The stroke width is kept in thousandths of a pixel.
#[derive(Clone, Copy, Debug)]
pub struct LayerStyle {
    pub fill: Option<Color>,
    pub stroke: Option<(u32, Color)>,
}

/// One predicate of a rule: look the property `key` up; if it is absent
/// the predicate is indeterminate and the rule fails; otherwise the
/// predicate holds when membership of the value in `values` agrees with
/// the `white_list` flag.
#[derive(Debug)]
pub struct Condition {
    pub key: String,
    pub values: Vec<MyValue>,
    pub white_list: bool,
}

/// What one predicate decides on a property list: `None` when the key is
/// absent, otherwise whether membership agrees with the whitelist flag.
pub open spec fn spec_condition_apply(c: Condition, props: Seq<(String, MyValue)>) -> Option<
    bool,
> {
    match lookup(props, c.key@) {
        Some(v) => Some(!(c.white_list ^ contains_value(c.values@, v))),
        None => None,
    }
}

impl Condition {
    /// Evaluate this predicate on a feature's property list.
    pub fn apply(&self, props: &Vec<(String, MyValue)>) -> (r: Option<bool>)
        ensures
            r == spec_condition_apply(*self, props@),
    {
        let n = props.len();
        let mut i: usize = 0;
        while i < n
            invariant
                i <= n,
                n == props@.len(),
                forall|j: int| 0 <= j < i ==> (#[trigger] props@[j]).0@ != self.key@,
            decreases n - i,
        {
            if str_eq(props[i].0.as_str(), self.key.as_str()) {
                let v = &props[i].1;
                let contained = self.contains(v);
                proof {
                    lemma_lookup_skip(props@, self.key@, i as int);
                    assert(props@.skip(i as int)[0] == props@[i as int]);
                }
                return Some(!(self.white_list ^ contained));
            }
            i = i + 1;
        }
        proof {
            lemma_lookup_skip(props@, self.key@, n as int);
            assert(props@.skip(n as int) =~= Seq::<(String, MyValue)>::empty());
        }
        None
    }

    /// Whether the allowed-value set contains `v`.
    fn contains(&self, v: &MyValue) -> (r: bool)
        ensures
            r == contains_value(self.values@, *v),
    {
        let n = self.values.len();
        let mut i: usize = 0;
        while i < n
            invariant
                i <= n,
                n == self.values@.len(),
                forall|j: int| 0 <= j < i ==> !value_eq(#[trigger] self.values@[j], *v),
            decreases n - i,
        {
            if self.values[i].eq_value(v) {
                return true;
            }
            i = i + 1;
        }
        false
    }
}

/// One conditional rule: all predicates must hold, and the tile's zoom
/// must reach the rule's minimum zoom if it names one.
#[derive(Debug)]
pub struct TypeConditions {
    pub conditions: Vec<Condition>,
    pub style: LayerStyle,
    pub min_zoomlevel: Option<u32>,
}

/// Whether a rule matches a feature at a zoom level.
pub open spec fn spec_rule_applies(
    t: TypeConditions,
    props: Seq<(String, MyValue)>,
    zoom: u32,
) -> bool {
    &&& match t.min_zoomlevel {
        Some(z) => zoom >= z,
        None => true,
    }
    &&& forall|i: int|
        0 <= i < t.conditions@.len() ==> spec_condition_apply(
            #[trigger] t.conditions@[i],
            props,
        ) == Some(true)
}

impl TypeConditions {
    /// Whether every predicate of this rule holds for the feature.
    pub fn apply(&self, props: &Vec<(String, MyValue)>, zoom: u32) -> (r: bool)
        ensures
            r == spec_rule_applies(*self, props@, zoom),
    {
        match self.min_zoomlevel {
            Some(z) => {
                if zoom < z {
                    return false;
                }
            },
            None => {},
        }
        let n = self.conditions.len();
        let mut i: usize = 0;
        while i < n
            invariant
                i <= n,
                n == self.conditions@.len(),
                forall|j: int|
                    0 <= j < i ==> spec_condition_apply(#[trigger] self.conditions@[j], props@)
                        == Some(true),
            decreases n - i,
        {
            let ok = match self.conditions[i].apply(props) {
                Some(b) => b,
                None => false,
            };
            if !ok {
                return false;
            }
            i = i + 1;
        }
        true
    }
}

/// One layer's ordered rule list plus its optional unconditional fallback.
#[derive(Debug)]
pub struct LayerSorter {
    pub layer_name: String,
    pub sub_types: Vec<TypeConditions>,
    pub fall_back: Option<LayerStyle>,
}

/// The style of the first matching rule, if any.
pub open spec fn first_match(
    rules: Seq<TypeConditions>,
    props: Seq<(String, MyValue)>,
    zoom: u32,
) -> Option<LayerStyle>
    decreases rules.len(),
{
    if rules.len() == 0 {
        None
    } else if spec_rule_applies(rules[0], props, zoom) {
        Some(rules[0].style)
    } else {
        first_match(rules.drop_first(), props, zoom)
    }
}

/// First-match evaluation ignores rules already ruled out.
proof fn lemma_first_match_skip(
    rules: Seq<TypeConditions>,
    props: Seq<(String, MyValue)>,
    zoom: u32,
    i: int,
)
    requires
        0 <= i <= rules.len(),
        forall|j: int| 0 <= j < i ==> !spec_rule_applies(#[trigger] rules[j], props, zoom),
    ensures
        first_match(rules, props, zoom) == first_match(rules.skip(i), props, zoom),
    decreases i,
{
    if i > 0 {
        lemma_first_match_skip(rules, props, zoom, i - 1);
        assert(rules.skip(i - 1).drop_first() =~= rules.skip(i));
        assert(rules.skip(i - 1)[0] == rules[i - 1]);
    } else {
        assert(rules.skip(0) =~= rules);
    }
}

/// What a layer's rule list assigns to a feature: the first matching
/// rule's style, else the fallback, else nothing.
pub open spec fn spec_sorter_apply(
    s: LayerSorter,
    props: Seq<(String, MyValue)>,
    zoom: u32,
) -> Option<LayerStyle> {
    match first_match(s.sub_types@, props, zoom) {
        Some(st) => Some(st),
        None => s.fall_back,
    }
}

impl LayerSorter {
    /// Classify one feature: the first matching rule wins, the fallback
    /// catches the rest.
    pub fn apply(&self, props: &Vec<(String, MyValue)>, zoom: u32) -> (r: Option<LayerStyle>)
        ensures
            r == spec_sorter_apply(*self, props@, zoom),
    {
        let n = self.sub_types.len();
        let mut i: usize = 0;
        while i < n
            invariant
                i <= n,
                n == self.sub_types@.len(),
                forall|j: int|
                    0 <= j < i ==> !spec_rule_applies(#[trigger] self.sub_types@[j], props@, zoom),
            decreases n - i,
        {
            if self.sub_types[i].apply(props, zoom) {
                proof {
                    lemma_first_match_skip(self.sub_types@, props@, zoom, i as int);
                    assert(self.sub_types@.skip(i as int)[0] == self.sub_types@[i as int]);
                }
                return Some(self.sub_types[i].style);
            }
            i = i + 1;
        }
        proof {
            lemma_first_match_skip(self.sub_types@, props@, zoom, n as int);
            assert(self.sub_types@.skip(n as int) =~= Seq::<TypeConditions>::empty());
        }
        self.fall_back
    }

    /// Whether this bucket can have no visual effect at all: no rule
    /// carries a fill or a stroke, and there is no fallback.
    pub fn is_empty(&self) -> (r: bool)
        ensures
            r == spec_sorter_is_empty(*self),
    {
        let n = self.sub_types.len();
        let mut i: usize = 0;
        while i < n
            invariant
                i <= n,
                n == self.sub_types@.len(),
                forall|j: int|
                    0 <= j < i ==> (#[trigger] self.sub_types@[j]).style.fill is None
                        && self.sub_types@[j].style.stroke is None,
            decreases n - i,
        {
            let has_fill = match self.sub_types[i].style.fill {
                Some(_) => true,
                None => false,
            };
            let has_stroke = match self.sub_types[i].style.stroke {
                Some(_) => true,
                None => false,
            };
            if has_fill || has_stroke {
                return false;
            }
            i = i + 1;
        }
        match self.fall_back {
            Some(_) => false,
            None => true,
        }
    }
}

/// A bucket with no visual effect: every rule's style is empty and there
/// is no fallback style.
pub open spec fn spec_sorter_is_empty(s: LayerSorter) -> bool {
    &&& forall|i: int|
        0 <= i < s.sub_types@.len() ==> (#[trigger] s.sub_types@[i]).style.fill is None
            && s.sub_types@[i].style.stroke is None
    &&& s.fall_back is None
}

/// The whole classifier configuration: one `LayerSorter` per tracked
/// layer, in paint order. The position of a layer's sorter is its bucket
/// index, which also orders the layers of a decoded tile.
#[derive(Debug)]
pub struct Style(pub Vec<LayerSorter>);

/// The sorters that survive pruning: those that can have some visual
/// effect, in their original order.
pub open spec fn keep_non_empty(s: Seq<LayerSorter>) -> Seq<LayerSorter>
    decreases s.len(),
{
    if s.len() == 0 {
        Seq::empty()
    } else {
        keep_non_empty(s.drop_last()) + (if spec_sorter_is_empty(s.last()) {
            Seq::empty()
        } else {
            seq![s.last()]
        })
    }
}

impl Style {
    /// The bucket index of the layer named `name`: the position of the
    /// first sorter with that layer name, if any is tracked.
    ///
    /// The configuration is limited to 256 layers so that a bucket index
    /// always fits in the `u8` that tiles carry.
    pub fn get_layer_idx(&self, name: &str) -> (r: Option<u8>)
        requires
            self.0@.len() <= 256,
        ensures
            match r {
                Some(i) => i < self.0@.len() && self.0@[i as int].layer_name@ == name@ && (
                forall|j: int| 0 <= j < i ==> (#[trigger] self.0@[j]).layer_name@ != name@),
                None => forall|j: int|
                    0 <= j < self.0@.len() ==> (#[trigger] self.0@[j]).layer_name@ != name@,
            },
    {
        let n = self.0.len();
        let mut i: usize = 0;
        while i < n
            invariant
                i <= n,
                n == self.0@.len(),
                n <= 256,
                forall|j: int| 0 <= j < i ==> (#[trigger] self.0@[j]).layer_name@ != name@,
            decreases n - i,
        {
            if str_eq(self.0[i].layer_name.as_str(), name) {
                return Some(i as u8);
            }
            i = i + 1;
        }
        None
    }

    /// The sorter at a bucket index.
    pub fn get_sorter(&self, idx: u8) -> (r: &LayerSorter)
        requires
            (idx as int) < self.0@.len(),
        ensures
            *r == self.0@[idx as int],
    {
        &self.0[idx as usize]
    }

    /// The highest bucket index in use.
    pub fn max_layer_idx(&self) -> (r: u8)
        requires
            1 <= self.0@.len() <= 256,
        ensures
            r as int == self.0@.len() - 1,
    {
        (self.0.len() - 1) as u8
    }

    /// Prune buckets that can have no visual effect, so that bucket
    /// counting and paint order exclude dead entries. Runs once at load
    /// time.
    pub fn retain_non_empty(&mut self)
        ensures
            final(self).0@ == keep_non_empty(old(self).0@),
    {
        let ghost orig = self.0@;
        let ghost mut done: Seq<LayerSorter> = Seq::empty();
        let mut out: Vec<LayerSorter> = Vec::new();
        while self.0.len() > 0
            invariant
                orig =~= done + self.0@,
                out@ == keep_non_empty(done),
            decreases self.0@.len(),
        {
            let s = self.0.remove(0);
            let ghost sv = s;
            let keep = !s.is_empty();
            if keep {
                out.push(s);
            }
            proof {
                let prev = done;
                done = done.push(sv);
                assert(done.drop_last() =~= prev);
                assert(done.last() == sv);
                assert(orig =~= done + self.0@);
                assert(out@ =~= keep_non_empty(done));
            }
        }
        proof {
            assert(done =~= orig);
        }
        self.0 = out;
    }
}

/// The bucket index of the first sorter carrying `name`, if any.
pub open spec fn spec_layer_idx(sorters: Seq<LayerSorter>, name: Seq<char>) -> Option<int>
    decreases sorters.len(),
{
    if sorters.len() == 0 {
        None
    } else if sorters[0].layer_name@ == name {
        Some(0int)
    } else {
        match spec_layer_idx(sorters.drop_first(), name) {
            Some(i) => Some(i + 1),
            None => None,
        }
    }
}

/// A witnessed first match pins `spec_layer_idx`.
pub proof fn lemma_layer_idx_at(sorters: Seq<LayerSorter>, name: Seq<char>, i: int)
    requires
        0 <= i < sorters.len(),
        sorters[i].layer_name@ == name,
        forall|j: int| 0 <= j < i ==> (#[trigger] sorters[j]).layer_name@ != name,
    ensures
        spec_layer_idx(sorters, name) == Some(i),
    decreases i,
{
    if i > 0 {
        let rest = sorters.drop_first();
        assert(rest[i - 1] == sorters[i]);
        assert forall|j: int| 0 <= j < i - 1 implies (#[trigger] rest[j]).layer_name@ != name by {
            assert(rest[j] == sorters[j + 1]);
        }
        lemma_layer_idx_at(rest, name, i - 1);
    }
}

/// A name no sorter carries has no bucket index.
pub proof fn lemma_layer_idx_none(sorters: Seq<LayerSorter>, name: Seq<char>)
    requires
        forall|j: int| 0 <= j < sorters.len() ==> (#[trigger] sorters[j]).layer_name@ != name,
    ensures
        spec_layer_idx(sorters, name) is None,
    decreases sorters.len(),
{
    if sorters.len() > 0 {
        let rest = sorters.drop_first();
        assert forall|j: int| 0 <= j < rest.len() implies (#[trigger] rest[j]).layer_name@
            != name by {
            assert(rest[j] == sorters[j + 1]);
        }
        lemma_layer_idx_none(rest, name);
    }
}

// Classification over a property map.
//
// The tile decoder receives each feature's properties as a map (unordered
// by nature); the exec classifier walks a list. The `_at` family below
// evaluates the same rules directly over a map, and the congruence lemmas
// show the two agree whenever the list answers lookups as the map does -
// which is all the classifier ever asks of the properties.

/// The entry of a property map at a key, if any.
pub open spec fn map_opt(m: Map<Seq<char>, MyValue>, k: Seq<char>) -> Option<MyValue> {
    if m.dom().contains(k) {
        Some(m[k])
    } else {
        None
    }
}

/// Optional property values that agree up to tag-aware equality.
pub open spec fn opt_value_eq(a: Option<MyValue>, b: Option<MyValue>) -> bool {
    match (a, b) {
        (Some(x), Some(y)) => value_eq(x, y),
        (None, None) => true,
        _ => false,
    }
}

/// A property list answers every lookup as the map `m` does.
pub open spec fn props_match(props: Seq<(String, MyValue)>, m: Map<Seq<char>, MyValue>) -> bool {
    forall|k: Seq<char>| opt_value_eq(#[trigger] lookup(props, k), map_opt(m, k))
}

/// `spec_condition_apply`, evaluated over a property map.
pub open spec fn spec_condition_apply_at(c: Condition, m: Map<Seq<char>, MyValue>) -> Option<
    bool,
> {
    match map_opt(m, c.key@) {
        Some(v) => Some(!(c.white_list ^ contains_value(c.values@, v))),
        None => None,
    }
}

/// `spec_rule_applies`, evaluated over a property map.
pub open spec fn spec_rule_applies_at(
    t: TypeConditions,
    m: Map<Seq<char>, MyValue>,
    zoom: u32,
) -> bool {
    &&& match t.min_zoomlevel {
        Some(z) => zoom >= z,
        None => true,
    }
    &&& forall|i: int|
        0 <= i < t.conditions@.len() ==> spec_condition_apply_at(#[trigger] t.conditions@[i], m)
            == Some(true)
}

/// `first_match`, evaluated over a property map.
pub open spec fn first_match_at(
    rules: Seq<TypeConditions>,
    m: Map<Seq<char>, MyValue>,
    zoom: u32,
) -> Option<LayerStyle>
    decreases rules.len(),
{
    if rules.len() == 0 {
        None
    } else if spec_rule_applies_at(rules[0], m, zoom) {
        Some(rules[0].style)
    } else {
        first_match_at(rules.drop_first(), m, zoom)
    }
}

/// `spec_sorter_apply`, evaluated over a property map.
pub open spec fn spec_sorter_apply_at(
    s: LayerSorter,
    m: Map<Seq<char>, MyValue>,
    zoom: u32,
) -> Option<LayerStyle> {
    match first_match_at(s.sub_types@, m, zoom) {
        Some(st) => Some(st),
        None => s.fall_back,
    }
}

/// Tag-aware equality tells sets of allowed values nothing apart:
/// equivalent values are contained alike.
proof fn lemma_contains_value_congruent(vals: Seq<MyValue>, a: MyValue, b: MyValue)
    requires
        value_eq(a, b),
    ensures
        contains_value(vals, a) == contains_value(vals, b),
{
    assert forall|i: int| 0 <= i < vals.len() implies (value_eq(#[trigger] vals[i], a)
        == value_eq(vals[i], b)) by {
        lemma_value_eq_trans(vals[i], a, b);
        lemma_value_eq_trans(vals[i], b, a);
    }
}

/// Tag-aware equality chains.
proof fn lemma_value_eq_trans(x: MyValue, a: MyValue, b: MyValue)
    requires
        value_eq(a, b),
    ensures
        value_eq(x, a) ==> value_eq(x, b),
{
}

/// One predicate decides alike over a list and over a map the list
/// matches.
proof fn lemma_condition_apply_congruent(
    c: Condition,
    props: Seq<(String, MyValue)>,
    m: Map<Seq<char>, MyValue>,
)
    requires
        props_match(props, m),
    ensures
        spec_condition_apply(c, props) == spec_condition_apply_at(c, m),
{
    assert(opt_value_eq(lookup(props, c.key@), map_opt(m, c.key@)));
    match (lookup(props, c.key@), map_opt(m, c.key@)) {
        (Some(v1), Some(v2)) => {
            lemma_contains_value_congruent(c.values@, v1, v2);
        },
        _ => {},
    }
}

/// First-match evaluation agrees over a list and over a map the list
/// matches.
proof fn lemma_first_match_congruent(
    rules: Seq<TypeConditions>,
    props: Seq<(String, MyValue)>,
    m: Map<Seq<char>, MyValue>,
    zoom: u32,
)
    requires
        props_match(props, m),
    ensures
        first_match(rules, props, zoom) == first_match_at(rules, m, zoom),
    decreases rules.len(),
{
    if rules.len() > 0 {
        assert(spec_rule_applies(rules[0], props, zoom) == spec_rule_applies_at(
            rules[0],
            m,
            zoom,
        )) by {
            lemma_rule_applies_congruent(rules[0], props, m, zoom);
        }
        lemma_first_match_congruent(rules.drop_first(), props, m, zoom);
    }
}

/// A whole rule decides alike over a list and over a map the list
/// matches.
proof fn lemma_rule_applies_congruent(
    t: TypeConditions,
    props: Seq<(String, MyValue)>,
    m: Map<Seq<char>, MyValue>,
    zoom: u32,
)
    requires
        props_match(props, m),
    ensures
        spec_rule_applies(t, props, zoom) == spec_rule_applies_at(t, m, zoom),
{
    assert forall|i: int| 0 <= i < t.conditions@.len() implies spec_condition_apply(
        #[trigger] t.conditions@[i],
        props,
    ) == spec_condition_apply_at(t.conditions@[i], m) by {
        lemma_condition_apply_congruent(t.conditions@[i], props, m);
    }
}

/// Classification only reads the properties through lookups: a list that
/// answers every lookup as the map does classifies exactly as the map.
pub proof fn lemma_sorter_apply_congruent(
    s: LayerSorter,
    props: Seq<(String, MyValue)>,
    m: Map<Seq<char>, MyValue>,
    zoom: u32,
)
    requires
        props_match(props, m),
    ensures
        spec_sorter_apply(s, props, zoom) == spec_sorter_apply_at(s, m, zoom),
{
    lemma_first_match_congruent(s.sub_types@, props, m, zoom);
}

// LAWS

/// Classifier determinism: what a rule list assigns to a feature is a
/// function of the rule list, the property list and the zoom alone; two
/// classification results of the same inputs always agree.
pub proof fn lemma_classifier_deterministic(
    s: LayerSorter,
    props: Seq<(String, MyValue)>,
    zoom: u32,
    r1: Option<LayerStyle>,
    r2: Option<LayerStyle>,
)
    requires
        r1 == spec_sorter_apply(s, props, zoom),
        r2 == spec_sorter_apply(s, props, zoom),
    ensures
        r1 == r2,
{
}

/// A property key absent from the feature's map causes every predicate
/// that references it to fail its whole rule.
pub proof fn lemma_absent_key_fails_rule(
    t: TypeConditions,
    props: Seq<(String, MyValue)>,
    zoom: u32,
    i: int,
)
    requires
        0 <= i < t.conditions@.len(),
        lookup(props, t.conditions@[i].key@) is None,
    ensures
        !spec_rule_applies(t, props, zoom),
{
    assert(spec_condition_apply(t.conditions@[i], props) is None);
}

} // verus!
