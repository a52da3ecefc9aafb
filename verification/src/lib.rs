//! Packs circles, stroked line segments and filled polygons into a flat,
//! caller-supplied byte buffer in the fixed binary scene layout that a
//! compute-shader renderer reads.

pub mod bbox;
pub mod binary32;
pub mod color;
pub mod document;
pub mod encoder;
pub mod flat;
pub mod geom;
pub mod item;
pub mod protocol;
pub mod scene;
pub mod wire;

pub use bbox::ShortBbox;
pub use color::parse_color;
pub use encoder::Encoder;
pub use geom::{Circle, Line, Point, Rect};
pub use item::Item;
