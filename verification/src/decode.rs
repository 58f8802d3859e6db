//! Decoding a raw tile payload into drawable, classified layers.
//!
//! The protocol-buffer parsing itself is the `mvt_reader` crate's work and
//! is reached through the trusted wrappers at the top of this module.
//! What the parser extracts is a pure function of the payload bytes, so
//! each extraction step carries a name over those bytes (`mvt_tile_ok`,
//! `mvt_layer_metas`, `mvt_feature_props`, ...): the wrappers promise to
//! return exactly the named values, and everything afterwards -
//! classification, geometry conversion, winding repair, layer assembly
//! and ordering - is verified code whose results are pinned, layer by
//! layer and point by point, to those names. The one thing left open is
//! the order in which a feature's property map is walked (a hash order
//! that varies between processes): the property wrapper promises only
//! what every order gives, namely the lookup function of the map.

use vstd::prelude::*;

use crate::geometry::Area;
use crate::geometry::Path;
use crate::geometry::Vector;
use crate::geometry::area_flipped;
use crate::geometry::area_view;
use crate::geometry::lemma_enforce_winding_is_wind_area;
use crate::geometry::wind_area;
use crate::style::LayerSorter;
use crate::style::LayerStyle;
use crate::style::MyValue;
use crate::style::Style;
use crate::style::lemma_layer_idx_at;
use crate::style::lemma_layer_idx_none;
use crate::style::lemma_sorter_apply_congruent;
use crate::style::props_match;
use crate::style::spec_layer_idx;
use crate::style::spec_sorter_apply_at;
use crate::tile::TileDescr;
use mvt_reader::feature::Value as MvtValue;

verus! {

/// Why a tile payload could not be decoded.
#[derive(Clone, Copy, Debug, PartialEq, Eq, Structural)]
pub enum DecodeError {
    /// The payload is no well-formed vector tile.
    Tile,
    /// The layer table could not be read.
    Layers,
    /// A layer's features could not be read.
    Features,
}

/// Name, coordinate extent and feature-table index of one raw layer.
#[derive(Debug)]
pub struct LayerMeta {
    pub name: String,
    pub extent: u32,
    pub index: usize,
}

/// The geometry of one raw feature, split by family: line-like features
/// become open paths, polygon-like features become areas (pre-winding),
/// and point-like features carry nothing drawable in this pipeline.
pub enum GeomParts {
    Lines(Vec<Path>),
    Polygons(Vec<Area>),
    Points,
}

/// Every coordinate of the geometry lies in the decoder's 32-bit range.
pub open spec fn geom_parts_bounded(g: GeomParts) -> bool {
    match g {
        GeomParts::Lines(ls) => forall|i: int| 0 <= i < ls@.len() ==> (#[trigger] ls@[i]).wf(),
        GeomParts::Polygons(ps) => forall|i: int| 0 <= i < ps@.len() ==> (#[trigger] ps@[i]).wf(),
        GeomParts::Points => true,
    }
}

// What the tile parser extracts from a payload. Each of these is a pure
// function of the bytes (and the layer and feature positions), fixed by
// the parser alone; the wrappers below promise to return exactly these
// values, and nothing else in the crate says what they are.

/// Whether the payload parses as a vector tile at all.
pub uninterp spec fn mvt_tile_ok(data: Seq<u8>) -> bool;

/// Whether the layer table of a parsed payload can be read (every layer
/// carries a supported version).
pub uninterp spec fn mvt_layers_ok(data: Seq<u8>) -> bool;

/// The layer table of the payload: each layer's name, extent and
/// feature-table index, in order.
pub uninterp spec fn mvt_layer_metas(data: Seq<u8>) -> Seq<(Seq<char>, u32, int)>;

/// Whether the features of the layer at `li` decode.
pub uninterp spec fn mvt_features_ok(data: Seq<u8>, li: int) -> bool;

/// How many decoded features the layer at `li` yields.
pub uninterp spec fn mvt_feature_count(data: Seq<u8>, li: int) -> int;

/// The property map of one feature: property names to tagged values
/// (float payloads as bit patterns). A map, not a list: the parser
/// builds a hash map, whose walking order is nobody's promise.
pub uninterp spec fn mvt_feature_props(data: Seq<u8>, li: int, fi: int) -> Map<
    Seq<char>,
    MyValue,
>;

/// The rings of one feature's line geometry, or `None` if the feature is
/// not line-like.
pub uninterp spec fn mvt_feature_lines(data: Seq<u8>, li: int, fi: int) -> Option<
    Seq<Seq<Vector>>,
>;

/// The outer-and-holes rings of one feature's polygon geometry, or
/// `None` if the feature is not polygon-like.
pub uninterp spec fn mvt_feature_polygons(data: Seq<u8>, li: int, fi: int) -> Option<
    Seq<(Seq<Vector>, Seq<Seq<Vector>>)>,
>;

#[verifier::external_type_specification]
#[verifier::external_body]
pub struct ExReader(mvt_reader::Reader);

/// A parsed tile payload: the parser's handle plus, as ghost state, the
/// bytes it was parsed from. Only `tile_reader` constructs one, so the
/// ghost bytes always are the bytes the handle came from.
pub struct TileSource {
    reader: mvt_reader::Reader,
    data: Ghost<Seq<u8>>,
}

impl TileSource {
    /// The payload bytes this source was parsed from.
    pub closed spec fn bytes(self) -> Seq<u8> {
        self.data@
    }
}

/// One undecoded feature of a raw layer, exactly as the tile parser hands
/// it out; opaque until its properties and geometry are converted.
#[verifier::external_body]
pub struct RawFeature {
    inner: mvt_reader::feature::Feature<i32>,
}

/// The decoded feature table of one raw layer, plus, as ghost state, the
/// payload bytes and the layer index it came from. Only `layer_features`
/// constructs one.
pub struct FeatureTable {
    feats: Vec<RawFeature>,
    src: Ghost<(Seq<u8>, int)>,
}

impl FeatureTable {
    /// The payload bytes the features were decoded from.
    pub closed spec fn bytes(self) -> Seq<u8> {
        self.src@.0
    }

    /// The index of the layer the features belong to.
    pub closed spec fn layer(self) -> int {
        self.src@.1
    }

    /// How many features the table holds.
    pub closed spec fn count(self) -> int {
        self.feats@.len() as int
    }

    /// How many features the table holds.
    pub fn len(&self) -> (r: usize)
        ensures
            r as int == self.count(),
    {
        self.feats.len()
    }
}

/// Relies on `mvt_reader::Reader::new`: parses a protocol-buffer tile
/// payload; success and the parse are functions of the bytes alone.
#[verifier::external_body]
fn reader_new(data: Vec<u8>) -> (r: Result<mvt_reader::Reader, DecodeError>)
    ensures
        r is Ok <==> mvt_tile_ok(data@),
        (r matches Err(e) ==> e == DecodeError::Tile),
{
    mvt_reader::Reader::new(data).map_err(|_| DecodeError::Tile)
}

/// Parse a payload and remember, as ghost state, which bytes the handle
/// came from.
fn tile_reader(data: Vec<u8>) -> (r: Result<TileSource, DecodeError>)
    ensures
        r is Ok <==> mvt_tile_ok(data@),
        (r matches Ok(s) ==> s.bytes() == data@),
        (r matches Err(e) ==> e == DecodeError::Tile),
{
    let ghost bytes = data@;
    match reader_new(data) {
        Ok(reader) => Ok(TileSource { reader, data: Ghost(bytes) }),
        Err(e) => Err(e),
    }
}

/// Relies on `mvt_reader::Reader::get_layer_metadata`: one entry per
/// layer with its name, extent and index, in layer order; fails exactly
/// when some layer's version is unsupported. Both the outcome and the
/// entries are functions of the payload bytes.
#[verifier::external_body]
fn layer_metas(src: &TileSource) -> (r: Result<Vec<LayerMeta>, DecodeError>)
    ensures
        r is Ok <==> mvt_layers_ok(src.bytes()),
        (r matches Ok(ms) ==> {
            &&& ms@.len() == mvt_layer_metas(src.bytes()).len()
            &&& forall|i: int|
                0 <= i < ms@.len() ==> {
                    &&& (#[trigger] ms@[i]).name@ == mvt_layer_metas(src.bytes())[i].0
                    &&& ms@[i].extent == mvt_layer_metas(src.bytes())[i].1
                    &&& ms@[i].index as int == mvt_layer_metas(src.bytes())[i].2
                }
        }),
        (r matches Err(e) ==> e == DecodeError::Layers),
{
    match src.reader.get_layer_metadata() {
        Ok(ls) => Ok(
            ls.into_iter().map(
                |l| LayerMeta { name: l.name, extent: l.extent, index: l.layer_index },
            ).collect(),
        ),
        Err(_) => Err(DecodeError::Layers),
    }
}

/// Relies on `mvt_reader::Reader::get_features_as::<i32>`: decodes one
/// layer's features with exact 32-bit integer coordinates; success and
/// the feature count are functions of the bytes and the layer index.
#[verifier::external_body]
fn features_raw(src: &TileSource, idx: usize) -> (r: Result<Vec<RawFeature>, DecodeError>)
    ensures
        r is Ok <==> mvt_features_ok(src.bytes(), idx as int),
        (r matches Ok(fs) ==> fs@.len() == mvt_feature_count(src.bytes(), idx as int)),
        (r matches Err(e) ==> e == DecodeError::Features),
{
    match src.reader.get_features_as::<i32>(idx) {
        Ok(fs) => Ok(fs.into_iter().map(|f| RawFeature { inner: f }).collect()),
        Err(_) => Err(DecodeError::Features),
    }
}

/// Decode one layer's feature table and remember, as ghost state, the
/// bytes and the layer index it belongs to.
fn layer_features(src: &TileSource, idx: usize) -> (r: Result<FeatureTable, DecodeError>)
    ensures
        r is Ok <==> mvt_features_ok(src.bytes(), idx as int),
        (r matches Ok(t) ==> t.bytes() == src.bytes() && t.layer() == idx as int && t.count()
            == mvt_feature_count(src.bytes(), idx as int)),
        (r matches Err(e) ==> e == DecodeError::Features),
{
    let ghost info = (src.bytes(), idx as int);
    match features_raw(src, idx) {
        Ok(feats) => Ok(FeatureTable { feats, src: Ghost(info) }),
        Err(e) => Err(e),
    }
}

/// Relies on the `properties` field of `mvt_reader::feature::Feature`: a
/// hash map of property names to tagged values, turned into a list of
/// pairs (floating-point payloads become their raw bit patterns). The
/// map is walked in whatever order its hashing gives, so the promise is
/// only what holds of every order: the list answers each lookup exactly
/// as the feature's property map does.
#[verifier::external_body]
fn feature_properties(t: &FeatureTable, i: usize) -> (out: Vec<(String, MyValue)>)
    requires
        i < t.count(),
    ensures
        props_match(out@, mvt_feature_props(t.bytes(), t.layer(), i as int)),
{
    let conv = |v: &MvtValue| match v {
        MvtValue::String(s) => MyValue::String(s.clone()),
        MvtValue::Float(x) => MyValue::Float(x.to_bits()),
        MvtValue::Double(x) => MyValue::Double(x.to_bits()),
        MvtValue::Int(i) => MyValue::Int(*i),
        MvtValue::UInt(u) => MyValue::UInt(*u),
        MvtValue::SInt(i) => MyValue::SInt(*i),
        MvtValue::Bool(b) => MyValue::Bool(*b),
        MvtValue::Null => MyValue::Null,
    };
    t.feats[i].inner.properties.iter().flatten().map(|(k, v)| (k.clone(), conv(v))).collect()
}

/// Relies on the `geometry` field of `mvt_reader::feature::Feature`: for
/// line-string and multi-line-string geometry, exactly the named rings
/// of i32 points (which all fit the 32-bit range); `None` exactly for
/// any other geometry.
#[verifier::external_body]
fn feature_lines(t: &FeatureTable, i: usize) -> (out: Option<Vec<Path>>)
    requires
        i < t.count(),
    ensures
        (match (out, mvt_feature_lines(t.bytes(), t.layer(), i as int)) {
            (Some(ls), Some(lv)) => {
                &&& ls@.len() == lv.len()
                &&& forall|j: int| 0 <= j < ls@.len() ==> (#[trigger] ls@[j]).0@ == lv[j]
                &&& forall|j: int| 0 <= j < ls@.len() ==> (#[trigger] ls@[j]).wf()
            },
            (None, None) => true,
            _ => false,
        }),
{
    let ring = |l: &geo_types::LineString<i32>| Path(l.0.iter().map(|c| Vector { x: c.x as i64, y: c.y as i64 }).collect());
    match &t.feats[i].inner.geometry {
        geo_types::Geometry::LineString(l) => Some(vec![ring(l)]),
        geo_types::Geometry::MultiLineString(m) => Some(m.0.iter().map(ring).collect()),
        _ => None,
    }
}

/// Relies on the `geometry` field of `mvt_reader::feature::Feature`: for
/// polygon and multi-polygon geometry, exactly the named outer and hole
/// rings of i32 points (which all fit the 32-bit range); `None` exactly
/// for any other geometry.
#[verifier::external_body]
fn feature_polygons(t: &FeatureTable, i: usize) -> (out: Option<Vec<Area>>)
    requires
        i < t.count(),
    ensures
        (match (out, mvt_feature_polygons(t.bytes(), t.layer(), i as int)) {
            (Some(ps), Some(pv)) => {
                &&& ps@.len() == pv.len()
                &&& forall|j: int| 0 <= j < ps@.len() ==> area_view(#[trigger] ps@[j]) == pv[j]
                &&& forall|j: int| 0 <= j < ps@.len() ==> (#[trigger] ps@[j]).wf()
            },
            (None, None) => true,
            _ => false,
        }),
{
    let ring = |l: &geo_types::LineString<i32>| Path(l.0.iter().map(|c| Vector { x: c.x as i64, y: c.y as i64 }).collect());
    let poly = |p: &geo_types::Polygon<i32>| Area { outer: ring(p.exterior()), inner: p.interiors().iter().map(ring).collect() };
    match &t.feats[i].inner.geometry {
        geo_types::Geometry::Polygon(p) => Some(vec![poly(p)]),
        geo_types::Geometry::MultiPolygon(m) => Some(m.0.iter().map(poly).collect()),
        _ => None,
    }
}

/// Split one feature's geometry by family: exactly the named line rings,
/// else exactly the named polygon rings, else nothing drawable. The tile
/// parser's source builds only line-string, multi-line-string, polygon,
/// multi-polygon and multi-point geometry.
fn feature_geometry(t: &FeatureTable, i: usize) -> (out: GeomParts)
    requires
        i < t.count(),
    ensures
        geom_parts_bounded(out),
        (match mvt_feature_lines(t.bytes(), t.layer(), i as int) {
            Some(lv) => out matches GeomParts::Lines(ls) && ls@.map_values(
                (|p: Path| p.0@),
            ) == lv,
            None => match mvt_feature_polygons(t.bytes(), t.layer(), i as int) {
                Some(pv) => out matches GeomParts::Polygons(ps) && ps@.map_values(
                    (|a: Area| area_view(a)),
                ) == pv,
                None => out is Points,
            },
        }),
{
    match feature_lines(t, i) {
        Some(ls) => {
            proof {
                if let Some(lv) = mvt_feature_lines(t.bytes(), t.layer(), i as int) {
                    assert(ls@.map_values((|p: Path| p.0@)) =~= lv);
                }
            }
            GeomParts::Lines(ls)
        },
        None => match feature_polygons(t, i) {
            Some(ps) => {
                proof {
                    if let Some(pv) = mvt_feature_polygons(t.bytes(), t.layer(), i as int) {
                        assert(ps@.map_values((|a: Area| area_view(a))) =~= pv);
                    }
                }
                GeomParts::Polygons(ps)
            },
            None => GeomParts::Points,
        },
    }
}

// The decoded form of one layer, as bare mathematical data: bucket index,
// extent, the styled line rings, and the styled areas (outer ring and
// hole rings). The specs below assemble exactly this from the named
// parse results, and the exec pipeline is proved to produce it.

/// The style the bucket's rules assign to one feature.
pub open spec fn classified_style(
    data: Seq<u8>,
    li: int,
    s: LayerSorter,
    zoom: u32,
    fi: int,
) -> Option<LayerStyle> {
    spec_sorter_apply_at(s, mvt_feature_props(data, li, fi), zoom)
}

/// The styled line rings one feature contributes to its layer.
pub open spec fn feature_paths(data: Seq<u8>, li: int, s: LayerSorter, zoom: u32, fi: int) -> Seq<
    (LayerStyle, Seq<Vector>),
> {
    match classified_style(data, li, s, zoom, fi) {
        Some(st) => match mvt_feature_lines(data, li, fi) {
            Some(lv) => lv.map_values((|l: Seq<Vector>| (st, l))),
            None => Seq::empty(),
        },
        None => Seq::empty(),
    }
}

/// The styled pre-winding areas one feature contributes to its layer
/// (nothing if the feature is line-like).
pub open spec fn feature_areas_raw(
    data: Seq<u8>,
    li: int,
    s: LayerSorter,
    zoom: u32,
    fi: int,
) -> Seq<(LayerStyle, (Seq<Vector>, Seq<Seq<Vector>>))> {
    match classified_style(data, li, s, zoom, fi) {
        Some(st) => if mvt_feature_lines(data, li, fi) is Some {
            Seq::empty()
        } else {
            match mvt_feature_polygons(data, li, fi) {
                Some(pv) => pv.map_values(
                    (|a: (Seq<Vector>, Seq<Seq<Vector>>)| (st, a)),
                ),
                None => Seq::empty(),
            }
        },
        None => Seq::empty(),
    }
}

/// All styled line rings of the first `n` features, in order.
pub open spec fn built_paths(data: Seq<u8>, li: int, s: LayerSorter, zoom: u32, n: int) -> Seq<
    (LayerStyle, Seq<Vector>),
>
    decreases n,
{
    if n <= 0 {
        Seq::empty()
    } else {
        built_paths(data, li, s, zoom, n - 1) + feature_paths(data, li, s, zoom, n - 1)
    }
}

/// All styled pre-winding areas of the first `n` features, in order.
pub open spec fn built_areas_raw(data: Seq<u8>, li: int, s: LayerSorter, zoom: u32, n: int) -> Seq<
    (LayerStyle, (Seq<Vector>, Seq<Seq<Vector>>)),
>
    decreases n,
{
    if n <= 0 {
        Seq::empty()
    } else {
        built_areas_raw(data, li, s, zoom, n - 1) + feature_areas_raw(data, li, s, zoom, n - 1)
    }
}

/// One classified bucket of a tile: the paths and areas of every feature
/// this bucket's rules matched, each with the style that matched it, plus
/// the coordinate extent their grid coordinates are relative to.
#[derive(Debug)]
pub struct Layer {
    pub id: u8,
    pub extent: u32,
    pub paths: Vec<(LayerStyle, Path)>,
    pub areas: Vec<(LayerStyle, Area)>,
}

impl Layer {
    /// All geometry is in coordinate range and every area satisfies the
    /// winding invariant.
    pub open spec fn wf(self) -> bool {
        &&& forall|i: int| 0 <= i < self.paths@.len() ==> (#[trigger] self.paths@[i]).1.wf()
        &&& forall|i: int|
            0 <= i < self.areas@.len() ==> (#[trigger] self.areas@[i]).1.wf()
                && self.areas@[i].1.well_wound()
    }
}

/// One decoded layer as bare data: bucket index, extent, styled line
/// rings, styled wound areas.
pub open spec fn layer_view(l: Layer) -> (
    u8,
    u32,
    Seq<(LayerStyle, Seq<Vector>)>,
    Seq<(LayerStyle, (Seq<Vector>, Seq<Seq<Vector>>))>,
) {
    (
        l.id,
        l.extent,
        l.paths@.map_values(|p: (LayerStyle, Path)| (p.0, (p.1).0@)),
        l.areas@.map_values(|a: (LayerStyle, Area)| (a.0, area_view(a.1))),
    )
}

/// Layers stand in paint order: bucket indices never decrease.
pub open spec fn layers_sorted(s: Seq<Layer>) -> bool {
    forall|i: int, j: int| 0 <= i < j < s.len() ==> (#[trigger] s[i]).id <= (#[trigger] s[j]).id
}

/// One decoded tile: its address and its layers in paint order.
#[derive(Debug)]
pub struct MapData {
    pub descr: TileDescr,
    pub layers: Vec<Layer>,
}

impl MapData {
    /// The tile's layers, in paint order.
    pub open spec fn spec_layers(self) -> Seq<Layer> {
        self.layers@
    }

    /// Layers are sorted by bucket index and individually well formed.
    pub open spec fn wf(self) -> bool {
        &&& layers_sorted(self.spec_layers())
        &&& forall|i: int|
            0 <= i < self.spec_layers().len() ==> (#[trigger] self.spec_layers()[i]).wf()
    }

    /// The first layer of the given bucket index, if the tile has one.
    pub fn get_layer(&self, layer_idx: u8) -> (r: Option<&Layer>)
        ensures
            match r {
                Some(l) => exists|i: int|
                    0 <= i < self.spec_layers().len() && *l == self.spec_layers()[i] && (
                    #[trigger] self.spec_layers()[i]).id == layer_idx && (forall|j: int|
                        0 <= j < i ==> (#[trigger] self.spec_layers()[j]).id != layer_idx),
                None => forall|j: int|
                    0 <= j < self.spec_layers().len() ==> (#[trigger] self.spec_layers()[j]).id
                        != layer_idx,
            },
    {
        let n = self.layers.len();
        let mut i: usize = 0;
        while i < n
            invariant
                i <= n,
                n == self.layers@.len(),
                forall|j: int| 0 <= j < i ==> (#[trigger] self.layers@[j]).id != layer_idx,
            decreases n - i,
        {
            if self.layers[i].id == layer_idx {
                proof {
                    assert((#[trigger] self.spec_layers()[i as int]).id == layer_idx);
                }
                return Some(&self.layers[i]);
            }
            i = i + 1;
        }
        None
    }
}

/// Insert a layer into a paint-ordered list, after every layer whose
/// bucket index is not above the new one (so insertion keeps the order in
/// which buckets of equal index were decoded).
fn insert_layer_sorted(layers: &mut Vec<Layer>, l: Layer)
    requires
        layers_sorted(old(layers)@),
    ensures
        layers_sorted(final(layers)@),
        exists|p: int|
            0 <= p <= old(layers)@.len() && final(layers)@ == #[trigger] old(layers)@.insert(
                p,
                l,
            ) && (forall|j: int| 0 <= j < p ==> (#[trigger] old(layers)@[j]).id <= l.id) && (p
            == old(layers)@.len() || old(layers)@[p].id > l.id),
{
    let n = layers.len();
    let mut pos: usize = 0;
    while pos < n && layers[pos].id <= l.id
        invariant
            pos <= n,
            n == layers@.len(),
            layers@ == old(layers)@,
            forall|j: int| 0 <= j < pos ==> (#[trigger] layers@[j]).id <= l.id,
        decreases n - pos,
    {
        pos = pos + 1;
    }
    let ghost p = pos as int;
    layers.insert(pos, l);
    proof {
        let pre = old(layers)@;
        let post = layers@;
        assert(post == pre.insert(p, l));
        assert forall|i: int, j: int| 0 <= i < j < post.len() implies (#[trigger] post[i]).id <= (
        #[trigger] post[j]).id by {
            if i < p && j < p {
                assert(post[i] == pre[i] && post[j] == pre[j]);
            } else if i < p && j == p {
                assert(post[i] == pre[i] && post[j] == l);
            } else if i < p && j > p {
                assert(post[i] == pre[i] && post[j] == pre[j - 1]);
                assert(pre[i].id <= pre[j - 1].id);
            } else if i == p && j > p {
                assert(post[i] == l && post[j] == pre[j - 1]);
                assert(p < pre.len() && j - 1 >= p);
                assert(pre[p].id <= pre[j - 1].id);
            } else {
                assert(i > p && j > p);
                assert(post[i] == pre[i - 1] && post[j] == pre[j - 1]);
            }
        }
    }
}

/// Build one tile layer: classify each raw feature against the bucket's
/// rules at the tile's zoom, convert the geometry of the matches, then
/// run the winding repair over every area exactly once. The layer's
/// content is exactly the classification and conversion of the named
/// parse results, and the flag reports exactly whether any ring had to
/// be repaired.
pub fn build_layer(
    id: u8,
    extent: u32,
    zoom: u32,
    feats: &FeatureTable,
    sorter: &LayerSorter,
) -> (r: (Layer, bool))
    ensures
        r.0.id == id,
        r.0.extent == extent,
        r.0.wf(),
        r.0.paths@.map_values(|p: (LayerStyle, Path)| (p.0, (p.1).0@)) == built_paths(
            feats.bytes(),
            feats.layer(),
            *sorter,
            zoom,
            feats.count(),
        ),
        r.0.areas@.map_values(|a: (LayerStyle, Area)| (a.0, area_view(a.1))) == built_areas_raw(
            feats.bytes(),
            feats.layer(),
            *sorter,
            zoom,
            feats.count(),
        ).map_values(
            (|x: (LayerStyle, (Seq<Vector>, Seq<Seq<Vector>>))| (x.0, wind_area(x.1))),
        ),
        r.1 == layer_repaired_upto(feats.bytes(), feats.layer(), *sorter, zoom, feats.count()),
{
    let ghost data = feats.bytes();
    let ghost li = feats.layer();
    let mut paths: Vec<(LayerStyle, Path)> = Vec::new();
    let mut areas: Vec<(LayerStyle, Area)> = Vec::new();
    let n = feats.len();
    let mut i: usize = 0;
    while i < n
        invariant
            i <= n,
            n as int == feats.count(),
            data == feats.bytes(),
            li == feats.layer(),
            forall|k: int| 0 <= k < paths@.len() ==> (#[trigger] paths@[k]).1.wf(),
            forall|k: int| 0 <= k < areas@.len() ==> (#[trigger] areas@[k]).1.wf(),
            paths@.map_values(|p: (LayerStyle, Path)| (p.0, (p.1).0@)) == built_paths(
                data,
                li,
                *sorter,
                zoom,
                i as int,
            ),
            areas@.map_values(|a: (LayerStyle, Area)| (a.0, area_view(a.1))) == built_areas_raw(
                data,
                li,
                *sorter,
                zoom,
                i as int,
            ),
        decreases n - i,
    {
        let ghost pre_paths = paths@;
        let ghost pre_areas = areas@;
        let props = feature_properties(feats, i);
        let style_opt = sorter.apply(&props, zoom);
        proof {
            lemma_sorter_apply_congruent(
                *sorter,
                props@,
                mvt_feature_props(data, li, i as int),
                zoom,
            );
        }
        match style_opt {
            Some(st) => {
                let g = feature_geometry(feats, i);
                let ghost gv = g;
                convert_geometry(g, st, &mut paths, &mut areas);
                proof {
                    match gv {
                        GeomParts::Lines(ls) => {
                            assert forall|k: int| 0 <= k < paths@.len() implies (
                            #[trigger] paths@[k]).1.wf() by {
                                if k >= pre_paths.len() {
                                    assert(paths@[k] == ls@.map_values(
                                        (|p: Path| (st, p)),
                                    )[k - pre_paths.len()]);
                                }
                            }
                        },
                        GeomParts::Polygons(ps) => {
                            assert forall|k: int| 0 <= k < areas@.len() implies (
                            #[trigger] areas@[k]).1.wf() by {
                                if k >= pre_areas.len() {
                                    assert(areas@[k] == ps@.map_values(
                                        (|a: Area| (st, a)),
                                    )[k - pre_areas.len()]);
                                }
                            }
                        },
                        GeomParts::Points => {},
                    }
                    lemma_feature_step(
                        data,
                        li,
                        *sorter,
                        zoom,
                        i as int,
                        gv,
                        st,
                        pre_paths,
                        paths@,
                        pre_areas,
                        areas@,
                    );
                }
            },
            None => {
                proof {
                    assert(paths@.map_values(|p: (LayerStyle, Path)| (p.0, (p.1).0@)) =~= built_paths(
                        data,
                        li,
                        *sorter,
                        zoom,
                        i as int + 1,
                    ));
                    assert(areas@.map_values(|a: (LayerStyle, Area)| (a.0, area_view(a.1)))
                        =~= built_areas_raw(data, li, *sorter, zoom, i as int + 1));
                }
            },
        }
        i = i + 1;
    }
    let ghost built_raw = built_areas_raw(data, li, *sorter, zoom, n as int);
    let mut rewound = false;
    let mut fixed: Vec<(LayerStyle, Area)> = Vec::new();
    let ghost mut k: int = 0;
    proof {
        assert(areas@.map_values(|a: (LayerStyle, Area)| (a.0, area_view(a.1)))
            =~= built_raw.skip(0));
        assert(fixed@.map_values(|a: (LayerStyle, Area)| (a.0, area_view(a.1)))
            =~= built_raw.subrange(0, 0).map_values(
            (|x: (LayerStyle, (Seq<Vector>, Seq<Seq<Vector>>))| (x.0, wind_area(x.1)))));
    }
    while areas.len() > 0
        invariant
            0 <= k <= built_raw.len(),
            built_raw == built_areas_raw(data, li, *sorter, zoom, n as int),
            forall|j: int| 0 <= j < areas@.len() ==> (#[trigger] areas@[j]).1.wf(),
            areas@.map_values(|a: (LayerStyle, Area)| (a.0, area_view(a.1))) == built_raw.skip(k),
            forall|j: int|
                0 <= j < fixed@.len() ==> (#[trigger] fixed@[j]).1.wf()
                    && fixed@[j].1.well_wound(),
            fixed@.map_values(|a: (LayerStyle, Area)| (a.0, area_view(a.1))) == built_raw.subrange(
                0,
                k,
            ).map_values((|x: (LayerStyle, (Seq<Vector>, Seq<Seq<Vector>>))| (x.0, wind_area(x.1)))),
            rewound == exists|j: int|
                0 <= j < k && area_flipped((#[trigger] built_raw[j]).1),
        decreases areas@.len(),
    {
        let ghost prev = areas@;
        let pair = areas.remove(0);
        let st = pair.0;
        let mut a = pair.1;
        let ghost pre_a = a;
        proof {
            assert(prev.len() > 0);
            assert(prev.map_values(|a: (LayerStyle, Area)| (a.0, area_view(a.1))).len()
                == prev.len());
            assert(built_raw.skip(k).len() == prev.len());
            assert(0 <= k < built_raw.len());
            assert(prev.map_values(|a: (LayerStyle, Area)| (a.0, area_view(a.1)))[0] == (
                st,
                area_view(pre_a),
            ));
            assert(built_raw.skip(k)[0] == built_raw[k]);
            assert((st, area_view(pre_a)) == built_raw[k]);
        }
        let flip = a.enforce_winding();
        proof {
            lemma_enforce_winding_is_wind_area(pre_a, a, flip);
        }
        rewound = rewound || flip;
        let ghost pre_fixed = fixed@;
        fixed.push((st, a));
        proof {
            let prev_k = k;
            k = k + 1;
            assert forall|j: int| 0 <= j < areas@.len() implies areas@.map_values(
                |a: (LayerStyle, Area)| (a.0, area_view(a.1)),
            )[j] == #[trigger] built_raw.skip(k)[j] by {
                assert(areas@[j] == prev[j + 1]);
                assert(prev.map_values(|a: (LayerStyle, Area)| (a.0, area_view(a.1)))[j + 1]
                    == built_raw.skip(prev_k)[j + 1]);
                assert(built_raw.skip(prev_k)[j + 1] == built_raw[prev_k + 1 + j]);
                assert(built_raw.skip(k)[j] == built_raw[k + j]);
            }
            assert(areas@.len() == prev.len() - 1);
            assert(pre_fixed.map_values(|a: (LayerStyle, Area)| (a.0, area_view(a.1))).len()
                == pre_fixed.len());
            assert(pre_fixed.len() == prev_k);
            assert(fixed@.len() == k);
            let lhs = fixed@.map_values(|a: (LayerStyle, Area)| (a.0, area_view(a.1)));
            let rhs = built_raw.subrange(0, k).map_values(
                (|x: (LayerStyle, (Seq<Vector>, Seq<Seq<Vector>>))| (x.0, wind_area(x.1))),
            );
            assert forall|j: int| 0 <= j < fixed@.len() implies lhs[j] == #[trigger] rhs[j] by {
                assert(built_raw.subrange(0, k)[j] == built_raw[j]);
                if j < prev_k {
                    assert(fixed@[j] == pre_fixed[j]);
                    assert(pre_fixed.map_values(|a: (LayerStyle, Area)| (a.0, area_view(a.1)))[j]
                        == built_raw.subrange(0, prev_k).map_values(
                        (|x: (LayerStyle, (Seq<Vector>, Seq<Seq<Vector>>))| (x.0, wind_area(x.1))),
                    )[j]);
                    assert(built_raw.subrange(0, prev_k)[j] == built_raw[j]);
                } else {
                    assert(j == prev_k);
                    assert(fixed@[j] == (st, a));
                }
            }
            assert(fixed@.map_values(|a: (LayerStyle, Area)| (a.0, area_view(a.1)))
                =~= built_raw.subrange(0, k).map_values(
                (|x: (LayerStyle, (Seq<Vector>, Seq<Seq<Vector>>))| (x.0, wind_area(x.1)))));
            assert(rewound == exists|j: int|
                0 <= j < k && area_flipped((#[trigger] built_raw[j]).1)) by {
                if flip {
                    assert(area_flipped((built_raw[prev_k]).1));
                } else if rewound {
                    let w = choose|j: int|
                        0 <= j < prev_k && area_flipped((#[trigger] built_raw[j]).1);
                    assert(area_flipped((built_raw[w]).1));
                }
            }
        }
    }
    proof {
        assert(built_raw.skip(k).len() == 0);
        assert(k == built_raw.len());
        assert(built_raw.subrange(0, k) =~= built_raw);
    }
    (Layer { id, extent, paths, areas: fixed }, rewound)
}

/// Whether the winding pass over the first `n` features' areas repairs
/// anything.
pub open spec fn layer_repaired_upto(
    data: Seq<u8>,
    li: int,
    s: LayerSorter,
    zoom: u32,
    n: int,
) -> bool {
    exists|j: int|
        0 <= j < built_areas_raw(data, li, s, zoom, n).len() && area_flipped(
            (#[trigger] built_areas_raw(data, li, s, zoom, n)[j]).1,
        )
}

/// One feature's contribution extends the built prefix exactly as the
/// fold says.
proof fn lemma_feature_step(
    data: Seq<u8>,
    li: int,
    s: LayerSorter,
    zoom: u32,
    fi: int,
    gv: GeomParts,
    st: LayerStyle,
    pre_paths: Seq<(LayerStyle, Path)>,
    post_paths: Seq<(LayerStyle, Path)>,
    pre_areas: Seq<(LayerStyle, Area)>,
    post_areas: Seq<(LayerStyle, Area)>,
)
    requires
        0 <= fi,
        classified_style(data, li, s, zoom, fi) == Some(st),
        (match mvt_feature_lines(data, li, fi) {
            Some(lv) => gv matches GeomParts::Lines(ls) && ls@.map_values(
                (|p: Path| p.0@),
            ) == lv,
            None => match mvt_feature_polygons(data, li, fi) {
                Some(pv) => gv matches GeomParts::Polygons(ps) && ps@.map_values(
                    (|a: Area| area_view(a)),
                ) == pv,
                None => gv is Points,
            },
        }),
        (match gv {
            GeomParts::Lines(ls) => post_paths == pre_paths + ls@.map_values(
                (|p: Path| (st, p)),
            ) && post_areas == pre_areas,
            GeomParts::Polygons(ps) => post_areas == pre_areas + ps@.map_values(
                (|a: Area| (st, a)),
            ) && post_paths == pre_paths,
            GeomParts::Points => post_paths == pre_paths && post_areas == pre_areas,
        }),
        pre_paths.map_values(|p: (LayerStyle, Path)| (p.0, (p.1).0@)) == built_paths(
            data,
            li,
            s,
            zoom,
            fi,
        ),
        pre_areas.map_values(|a: (LayerStyle, Area)| (a.0, area_view(a.1))) == built_areas_raw(
            data,
            li,
            s,
            zoom,
            fi,
        ),
    ensures
        post_paths.map_values(|p: (LayerStyle, Path)| (p.0, (p.1).0@)) == built_paths(
            data,
            li,
            s,
            zoom,
            fi + 1,
        ),
        post_areas.map_values(|a: (LayerStyle, Area)| (a.0, area_view(a.1))) == built_areas_raw(
            data,
            li,
            s,
            zoom,
            fi + 1,
        ),
{
    assert(built_paths(data, li, s, zoom, fi + 1) == built_paths(data, li, s, zoom, fi)
        + feature_paths(data, li, s, zoom, fi));
    assert(built_areas_raw(data, li, s, zoom, fi + 1) == built_areas_raw(data, li, s, zoom, fi)
        + feature_areas_raw(data, li, s, zoom, fi));
    match gv {
        GeomParts::Lines(ls) => {
            if let Some(lv) = mvt_feature_lines(data, li, fi) {
                assert(feature_paths(data, li, s, zoom, fi) == lv.map_values(
                    (|l: Seq<Vector>| (st, l)),
                ));
            }
            assert(post_paths.map_values(|p: (LayerStyle, Path)| (p.0, (p.1).0@)) =~= built_paths(
                data,
                li,
                s,
                zoom,
                fi + 1,
            ));
            assert(feature_areas_raw(data, li, s, zoom, fi) =~= Seq::empty());
            assert(post_areas.map_values(|a: (LayerStyle, Area)| (a.0, area_view(a.1)))
                =~= built_areas_raw(data, li, s, zoom, fi + 1));
        },
        GeomParts::Polygons(ps) => {
            assert(mvt_feature_lines(data, li, fi) is None);
            if let Some(pv) = mvt_feature_polygons(data, li, fi) {
                assert(feature_areas_raw(data, li, s, zoom, fi) == pv.map_values(
                    (|a: (Seq<Vector>, Seq<Seq<Vector>>)| (st, a)),
                ));
            }
            assert(post_areas.map_values(|a: (LayerStyle, Area)| (a.0, area_view(a.1)))
                =~= built_areas_raw(data, li, s, zoom, fi + 1));
            assert(feature_paths(data, li, s, zoom, fi) =~= Seq::empty());
            assert(post_paths.map_values(|p: (LayerStyle, Path)| (p.0, (p.1).0@)) =~= built_paths(
                data,
                li,
                s,
                zoom,
                fi + 1,
            ));
        },
        GeomParts::Points => {
            assert(mvt_feature_lines(data, li, fi) is None);
            assert(mvt_feature_polygons(data, li, fi) is None);
            assert(feature_paths(data, li, s, zoom, fi) =~= Seq::empty());
            assert(feature_areas_raw(data, li, s, zoom, fi) =~= Seq::empty());
            assert(post_paths.map_values(|p: (LayerStyle, Path)| (p.0, (p.1).0@)) =~= built_paths(
                data,
                li,
                s,
                zoom,
                fi + 1,
            ));
            assert(post_areas.map_values(|a: (LayerStyle, Area)| (a.0, area_view(a.1)))
                =~= built_areas_raw(data, li, s, zoom, fi + 1));
        },
    }
}

/// Whether the style tracks a raw layer of this name.
pub open spec fn meta_tracked(style: Style, m: (Seq<char>, u32, int)) -> bool {
    spec_layer_idx(style.0@, m.0) is Some
}

/// The decoded form of one tracked raw layer, assembled from the named
/// parse results: bucket index, extent, classified line rings, and
/// classified areas after the winding repair.
pub open spec fn built_layer_v(data: Seq<u8>, style: Style, z: u32, m: (Seq<char>, u32, int)) -> (
    u8,
    u32,
    Seq<(LayerStyle, Seq<Vector>)>,
    Seq<(LayerStyle, (Seq<Vector>, Seq<Seq<Vector>>))>,
) {
    match spec_layer_idx(style.0@, m.0) {
        Some(idx) => (
            idx as u8,
            m.1,
            built_paths(data, m.2, style.0@[idx], z, mvt_feature_count(data, m.2)),
            built_areas_raw(data, m.2, style.0@[idx], z, mvt_feature_count(data, m.2)).map_values(
                (|x: (LayerStyle, (Seq<Vector>, Seq<Seq<Vector>>))| (x.0, wind_area(x.1))),
            ),
        ),
        None => (0u8, 0u32, Seq::empty(), Seq::empty()),
    }
}

/// Insert one decoded layer into a paint-ordered list, after every layer
/// whose bucket index is not above the new one.
pub open spec fn insert_by_id(
    s: Seq<(u8, u32, Seq<(LayerStyle, Seq<Vector>)>, Seq<(LayerStyle, (Seq<Vector>, Seq<Seq<Vector>>))>)>,
    l: (u8, u32, Seq<(LayerStyle, Seq<Vector>)>, Seq<(LayerStyle, (Seq<Vector>, Seq<Seq<Vector>>))>),
) -> Seq<(u8, u32, Seq<(LayerStyle, Seq<Vector>)>, Seq<(LayerStyle, (Seq<Vector>, Seq<Seq<Vector>>))>)>
    decreases s.len(),
{
    if s.len() > 0 && s.last().0 > l.0 {
        insert_by_id(s.drop_last(), l).push(s.last())
    } else {
        s.push(l)
    }
}

/// Paint order at the view level.
pub open spec fn layers_v_sorted(
    s: Seq<(u8, u32, Seq<(LayerStyle, Seq<Vector>)>, Seq<(LayerStyle, (Seq<Vector>, Seq<Seq<Vector>>))>)>,
) -> bool {
    forall|i: int, j: int| 0 <= i < j < s.len() ==> (#[trigger] s[i]).0 <= (#[trigger] s[j]).0
}

/// On a sorted list, `insert_by_id` is insertion at the first position
/// whose bucket index exceeds the new one.
proof fn lemma_insert_by_id_position(
    s: Seq<(u8, u32, Seq<(LayerStyle, Seq<Vector>)>, Seq<(LayerStyle, (Seq<Vector>, Seq<Seq<Vector>>))>)>,
    l: (u8, u32, Seq<(LayerStyle, Seq<Vector>)>, Seq<(LayerStyle, (Seq<Vector>, Seq<Seq<Vector>>))>),
    p: int,
)
    requires
        layers_v_sorted(s),
        0 <= p <= s.len(),
        forall|j: int| 0 <= j < p ==> (#[trigger] s[j]).0 <= l.0,
        p == s.len() || s[p].0 > l.0,
    ensures
        insert_by_id(s, l) == s.insert(p, l),
    decreases s.len(),
{
    if p == s.len() {
        if s.len() > 0 {
            assert(s.last().0 <= l.0);
        }
        assert(s.push(l) =~= s.insert(p, l));
    } else {
        assert(s.last().0 >= s[p].0);
        let d = s.drop_last();
        assert(layers_v_sorted(d)) by {
            assert(forall|i: int, j: int|
                0 <= i < j < d.len() ==> (#[trigger] d[i]).0 <= (#[trigger] d[j]).0);
        }
        assert(forall|j: int| 0 <= j < p ==> (#[trigger] d[j]).0 <= l.0);
        if p < d.len() {
            assert(d[p] == s[p]);
        }
        lemma_insert_by_id_position(d, l, p);
        assert(insert_by_id(s, l) == d.insert(p, l).push(s.last()));
        assert(d.insert(p, l).push(s.last()) =~= s.insert(p, l));
    }
}

/// The decoded layers of the first `n` raw layers, in paint order:
/// untracked names are skipped, tracked layers are built and inserted in
/// order.
pub open spec fn decode_fold(data: Seq<u8>, style: Style, z: u32, n: int) -> Seq<
    (u8, u32, Seq<(LayerStyle, Seq<Vector>)>, Seq<(LayerStyle, (Seq<Vector>, Seq<Seq<Vector>>))>),
>
    decreases n,
{
    if n <= 0 {
        Seq::empty()
    } else {
        let prev = decode_fold(data, style, z, n - 1);
        let m = mvt_layer_metas(data)[n - 1];
        if meta_tracked(style, m) {
            insert_by_id(prev, built_layer_v(data, style, z, m))
        } else {
            prev
        }
    }
}

/// Whether decoding the first `n` raw layers repairs any ring's winding.
pub open spec fn decode_rewound(data: Seq<u8>, style: Style, z: u32, n: int) -> bool
    decreases n,
{
    if n <= 0 {
        false
    } else {
        decode_rewound(data, style, z, n - 1) || {
            let m = mvt_layer_metas(data)[n - 1];
            match spec_layer_idx(style.0@, m.0) {
                Some(idx) => layer_repaired_upto(
                    data,
                    m.2,
                    style.0@[idx],
                    z,
                    mvt_feature_count(data, m.2),
                ),
                None => false,
            }
        }
    }
}

/// Every tracked raw layer among the first `n` has decodable features.
pub open spec fn features_all_ok(data: Seq<u8>, style: Style, n: int) -> bool {
    forall|i: int|
        0 <= i < n && meta_tracked(style, #[trigger] mvt_layer_metas(data)[i])
            ==> mvt_features_ok(data, mvt_layer_metas(data)[i].2)
}

/// Decode one raw tile payload into its classified, winding-repaired,
/// paint-ordered layers.
///
/// Success and failure are exact: the payload must parse, its layer
/// table must be readable, and every layer the style tracks must yield
/// its features — each `DecodeError` variant comes exactly from its
/// stage. On success the layers are exactly `decode_fold` of the named
/// parse results: the tracked raw layers, classified and converted,
/// inserted in paint order (order of arrival among equal buckets kept),
/// every area winding-repaired, and the repair flag reporting exactly
/// whether any ring had to be reversed.
pub fn decode_tile(descr: TileDescr, data: Vec<u8>, style: &Style) -> (r: Result<
    (MapData, bool),
    DecodeError,
>)
    requires
        style.0@.len() <= 256,
    ensures
        match r {
            Ok(p) => {
                &&& mvt_tile_ok(data@)
                &&& mvt_layers_ok(data@)
                &&& features_all_ok(data@, *style, mvt_layer_metas(data@).len() as int)
                &&& p.0.descr == descr
                &&& p.0.wf()
                &&& forall|i: int|
                    0 <= i < p.0.spec_layers().len() ==> (#[trigger] p.0.spec_layers()[i]).id
                        < style.0@.len()
                &&& p.0.layers@.map_values(|l: Layer| layer_view(l)) == decode_fold(
                    data@,
                    *style,
                    descr.z,
                    mvt_layer_metas(data@).len() as int,
                )
                &&& p.1 == decode_rewound(
                    data@,
                    *style,
                    descr.z,
                    mvt_layer_metas(data@).len() as int,
                )
            },
            Err(e) => match e {
                DecodeError::Tile => !mvt_tile_ok(data@),
                DecodeError::Layers => mvt_tile_ok(data@) && !mvt_layers_ok(data@),
                DecodeError::Features => mvt_tile_ok(data@) && mvt_layers_ok(data@)
                    && !features_all_ok(data@, *style, mvt_layer_metas(data@).len() as int),
            },
        },
{
    let ghost bytes = data@;
    let source = match tile_reader(data) {
        Ok(s) => s,
        Err(e) => {
            return Err(e);
        },
    };
    let metas = match layer_metas(&source) {
        Ok(m) => m,
        Err(e) => {
            return Err(e);
        },
    };
    let mut layers: Vec<Layer> = Vec::new();
    let mut rewound = false;
    let n = metas.len();
    let mut i: usize = 0;
    while i < n
        invariant
            i <= n,
            n == metas@.len(),
            bytes == data@,
            source.bytes() == bytes,
            mvt_tile_ok(bytes),
            mvt_layers_ok(bytes),
            n == mvt_layer_metas(bytes).len(),
            forall|j: int|
                0 <= j < n ==> {
                    &&& (#[trigger] metas@[j]).name@ == mvt_layer_metas(bytes)[j].0
                    &&& metas@[j].extent == mvt_layer_metas(bytes)[j].1
                    &&& metas@[j].index as int == mvt_layer_metas(bytes)[j].2
                },
            style.0@.len() <= 256,
            layers_sorted(layers@),
            forall|k: int| 0 <= k < layers@.len() ==> (#[trigger] layers@[k]).wf(),
            forall|k: int| 0 <= k < layers@.len() ==> (#[trigger] layers@[k]).id < style.0@.len(),
            layers@.map_values(|l: Layer| layer_view(l)) == decode_fold(
                bytes,
                *style,
                descr.z,
                i as int,
            ),
            rewound == decode_rewound(bytes, *style, descr.z, i as int),
            features_all_ok(bytes, *style, i as int),
        decreases n - i,
    {
        let ghost m = mvt_layer_metas(bytes)[i as int];
        match style.get_layer_idx(metas[i].name.as_str()) {
            None => {
                proof {
                    lemma_layer_idx_none(style.0@, m.0);
                }
            },
            Some(idx) => {
                proof {
                    lemma_layer_idx_at(style.0@, m.0, idx as int);
                }
                let feats = match layer_features(&source, metas[i].index) {
                    Ok(f) => f,
                    Err(e) => {
                        proof {
                            assert(meta_tracked(*style, mvt_layer_metas(bytes)[i as int])
                                && !mvt_features_ok(bytes, mvt_layer_metas(bytes)[i as int].2));
                            assert(!features_all_ok(bytes, *style, n as int));
                        }
                        return Err(e);
                    },
                };
                let sorter = style.get_sorter(idx);
                let built = build_layer(idx, metas[i].extent, descr.z, &feats, sorter);
                proof {
                    assert(layer_view(built.0) == built_layer_v(bytes, *style, descr.z, m));
                }
                rewound = rewound || built.1;
                let ghost pre = layers@;
                let ghost lv = layer_view(built.0);
                insert_layer_sorted(&mut layers, built.0);
                proof {
                    let p = choose|p: int|
                        0 <= p <= pre.len() && layers@ == #[trigger] pre.insert(p, built.0) && (
                        forall|j: int| 0 <= j < p ==> (#[trigger] pre[j]).id <= built.0.id) && (p
                            == pre.len() || pre[p].id > built.0.id);
                    assert forall|k: int| 0 <= k < layers@.len() implies (
                    #[trigger] layers@[k]).wf() && layers@[k].id < style.0@.len() by {
                        if k < p {
                            assert(layers@[k] == pre[k]);
                        } else if k == p {
                            assert(layers@[k] == built.0);
                        } else {
                            assert(layers@[k] == pre[k - 1]);
                        }
                    }
                    let pre_v = pre.map_values(|l: Layer| layer_view(l));
                    assert(layers@.map_values(|l: Layer| layer_view(l)) =~= pre_v.insert(p, lv))
                        by {
                        assert forall|k: int|
                            0 <= k < layers@.len() implies layer_view(#[trigger] layers@[k])
                            == pre_v.insert(p, lv)[k] by {
                            if k < p {
                                assert(layers@[k] == pre[k]);
                            } else if k == p {
                                assert(layers@[k] == built.0);
                            } else {
                                assert(layers@[k] == pre[k - 1]);
                            }
                        }
                    }
                    assert(layers_v_sorted(pre_v)) by {
                        assert forall|a: int, b: int|
                            0 <= a < b < pre_v.len() implies (#[trigger] pre_v[a]).0 <= (
                        #[trigger] pre_v[b]).0 by {
                            assert(pre_v[a] == layer_view(pre[a]) && pre_v[b] == layer_view(
                                pre[b],
                            ));
                        }
                    }
                    assert forall|j: int| 0 <= j < p implies (#[trigger] pre_v[j]).0 <= lv.0 by {
                        assert(pre_v[j] == layer_view(pre[j]));
                    }
                    if p < pre.len() {
                        assert(pre_v[p].0 > lv.0);
                    }
                    lemma_insert_by_id_position(pre_v, lv, p);
                }
            },
        }
        i = i + 1;
    }
    Ok((MapData { descr, layers }, rewound))
}

/// Sort a feature's geometry into the per-layer path and area lists under
/// the style its classification chose. Line geometry appends to `paths`,
/// polygon geometry to `areas`, point geometry is dropped.
pub fn convert_geometry(
    g: GeomParts,
    typ: LayerStyle,
    paths: &mut Vec<(LayerStyle, Path)>,
    areas: &mut Vec<(LayerStyle, Area)>,
)
    ensures
        match g {
            GeomParts::Lines(ls) => final(paths)@ == old(paths)@ + ls@.map_values(
                (|p: Path| (typ, p)),
            ) && final(areas)@ == old(areas)@,
            GeomParts::Polygons(ps) => final(areas)@ == old(areas)@ + ps@.map_values(
                (|a: Area| (typ, a)),
            ) && final(paths)@ == old(paths)@,
            GeomParts::Points => final(paths)@ == old(paths)@ && final(areas)@ == old(areas)@,
        },
{
    match g {
        GeomParts::Lines(mut ls) => {
            let ghost all = ls@;
            let ghost mut i: int = 0;
            while ls.len() > 0
                invariant
                    0 <= i <= all.len(),
                    ls@ == all.skip(i),
                    paths@ == old(paths)@ + all.subrange(0, i).map_values(
                        (|p: Path| (typ, p)),
                    ),
                    areas@ == old(areas)@,
                decreases ls@.len(),
            {
                let p = ls.remove(0);
                paths.push((typ, p));
                proof {
                    assert(all.skip(i).drop_first() =~= all.skip(i + 1));
                    assert(all.skip(i)[0] == all[i]);
                    i = i + 1;
                    assert(paths@ =~= old(paths)@ + all.subrange(0, i).map_values(
                        (|p: Path| (typ, p)),
                    ));
                }
            }
            proof {
                assert(all.skip(i).len() == 0);
                assert(all.subrange(0, i) =~= all);
            }
        },
        GeomParts::Polygons(mut ps) => {
            let ghost all = ps@;
            let ghost mut i: int = 0;
            while ps.len() > 0
                invariant
                    0 <= i <= all.len(),
                    ps@ == all.skip(i),
                    areas@ == old(areas)@ + all.subrange(0, i).map_values(
                        (|a: Area| (typ, a)),
                    ),
                    paths@ == old(paths)@,
                decreases ps@.len(),
            {
                let a = ps.remove(0);
                areas.push((typ, a));
                proof {
                    assert(all.skip(i).drop_first() =~= all.skip(i + 1));
                    assert(all.skip(i)[0] == all[i]);
                    i = i + 1;
                    assert(areas@ =~= old(areas)@ + all.subrange(0, i).map_values(
                        (|a: Area| (typ, a)),
                    ));
                }
            }
            proof {
                assert(all.skip(i).len() == 0);
                assert(all.subrange(0, i) =~= all);
            }
        },
        GeomParts::Points => {},
    }
}

} // verus!
