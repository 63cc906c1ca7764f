//! Perfect hash maps that are computed ahead of time.
//!
//! A map is built once from a list of keys that is known in full, and read
//! many times. Building picks, by the number of keys, one of three layouts:
//! keys in sorted order, a table with one slot per key, or a bucketed table
//! with a pilot byte per bucket and a remap table for its tail. Reading
//! evaluates the equation of the layout and compares the query with the one
//! key that the equation leads to.
//!
//! - [`builder`] computes the layout: [`builder::MapBuilder`] and the three
//!   strategies behind it, and the emitter that writes a finished map out as
//!   source text and blobs.
//! - [`lookup`] reads a map: [`TinyMap`], [`SmallMap`], [`MediumMap`].
//! - [`phf`] holds the equations that both sides share.
//! - [`store`], [`seq`] and [`aligned`] are the storage that a map reads its
//!   keys, values, pilots and remap entries from.
//! - [`equivalent`] says how a query compares and hashes; [`hash`] holds the
//!   hash functions.

pub mod aligned;
pub mod builder;
pub mod chd;
pub mod equivalent;
pub mod hash;
pub mod lookup;
pub mod phf;
pub mod seq;
pub mod store;
pub mod util;

pub use crate::lookup::{MediumMap, SmallMap, TinyMap};
