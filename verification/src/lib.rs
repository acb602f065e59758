//! A multi-resolution geospatial proximity index.
//!
//! Entities are tagged with a geohash. The index files each entity under the
//! cells that contain it at six precisions, and answers "which entities lie
//! within a radius of a point" by looking at one cell and its eight
//! neighbours and filtering the entities found there by distance.
//!
//! Lengths and coordinates are double-precision numbers. The library does no
//! floating-point arithmetic: it carries such a number as its IEEE-754 bit
//! pattern, compares bit patterns, and takes the great-circle distance as a
//! function supplied by the caller.
//!
//! - `geo_index`: the index and its operations: `index`, `find`, `lookup`,
//!   `view_index` and the steps they are made of.
//! - `model`: what the index holds and what its operations compute, as
//!   mathematics; the contracts are stated over it.
//! - `laws`: what holds across calls.
//! - `codec`: the geohash codec and the fingerprint, from the `geohash` and
//!   `sha2` crates.
//! - `buckets`, `keys`: the forward index, a vector of buckets in ascending
//!   order of fingerprint.
//! - `directory`, `ids`: the reverse lookup, a vector of entries in ascending
//!   order of identifier.
//! - `measure`: doubles as bit patterns, and their order.
//! - `error`: the failures.

pub mod buckets;
pub mod codec;
pub mod directory;
pub mod error;
pub mod geo_index;
pub mod ids;
pub mod keys;
pub mod laws;
pub mod measure;
pub mod model;

pub use error::IndexError;
pub use measure::{Coordinate, Km};
