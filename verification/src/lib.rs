//! A verified SVG ingestion pipeline: a restricted XML parser, a parser for
//! the SVG path mini-language, a flattener that turns parsed paths into
//! polygons, a scene builder over the XML tree, and bounding-box aggregation.
//!
//! Coordinates are exact fixed-point numbers (millionths of a user unit), so
//! every stage is a total, fully specified function.

pub mod geom;
pub mod num;
pub mod parser;
pub mod path;
pub mod prim;
pub mod svg;

pub use geom::Bounding;
pub use parser::XMLDoc;
pub use path::Path;
pub use svg::Node;
pub use svg::Root;
