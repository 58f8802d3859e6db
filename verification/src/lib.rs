//! Core of a vector-map tile pipeline: tile addressing, a two-tier tile
//! cache with corruption recovery, a rule-based style classifier, geometry
//! normalization with ring-winding repair, and multi-resolution crossfade
//! selection for continuous zooming.
//!
//! The pipeline is split along its I/O seams: everything that decides,
//! parses, classifies or transforms lives here with a contract, while the
//! driver that moves bytes over the network and on and off disk stays
//! outside and reports what happened back to the cache's state machine.

pub mod cache;
pub mod decode;
pub mod digest;
pub mod geometry;
pub mod resolution;
pub mod style;
pub mod text;
pub mod tile;

pub use cache::LoadAction;
pub use cache::MvtGetter;
pub use decode::DecodeError;
pub use decode::Layer;
pub use decode::MapData;
pub use geometry::Area;
pub use geometry::Path;
pub use geometry::Vector;
pub use resolution::LevelWeight;
pub use resolution::OneOrTwo;
pub use resolution::WorldRect;
pub use style::Color;
pub use style::Condition;
pub use style::LayerSorter;
pub use style::LayerStyle;
pub use style::MyValue;
pub use style::Style;
pub use style::TypeConditions;
pub use tile::TileDescr;
