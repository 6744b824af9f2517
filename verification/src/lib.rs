//! Verified core of geoq, a command-line utility belt for geospatial text
//! formats: input-format detection, geohash helpers, H3 argument handling, and
//! the binary layout of FlatGeobuf files (packed Hilbert R-tree index, feature
//! property buffers, schema inference).

pub mod digits;
pub mod error;
pub mod fgb;
pub mod input;
pub mod pattern;
pub mod geohash;
pub mod geohash_covering;
pub mod h3;
pub mod order;
pub mod parser;
pub mod reader;
