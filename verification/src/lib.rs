//! Parsing, sorting and re-serialization of HLS master playlists.
//!
//! The playlist text is treated as a sequence of bytes.  A specification-level
//! grammar (`model`) defines what parsing and serialization mean; the
//! executable parser and serializer (`parser`) are proved to implement that
//! grammar exactly, and the sort engine (`sort`) is proved to perform a stable
//! two-key sort over the record collections.

pub mod errors;
pub mod model;
pub mod numbers;
pub mod parser;
pub mod roundtrip;
pub mod scan;
pub mod sort;
pub mod tags;
