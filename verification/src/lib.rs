//! Encoder for pack files.
//!
//! A pack is a header, objects one behind the other, and a checksum. An object is
//! stored whole or as a delta against an object before it. Entries come in as lists
//! and the pack goes out as a list of chunks; sending and storing are left to the
//! caller, and so are the delta formats, which come in as functions.
//!
//! - `format`, `hash`, `object`: the bytes that a pack is made of.
//! - `path`, `order`, `buckets`: which entries come in which order.
//! - `similarity`, `window`, `delta`: which entries are stored as deltas, and against
//!   what.
//! - `encoder`, `windowed`, `parallel`, `encode`, `names`: the encoder.
//! - `reading`, `laws`, `arrival`: what holds of packs as a whole.
//! - `delta_laws`, `order_laws`, `plain_laws`: what choosing bases, sorting and encoding come
//!   to, in terms of objects, paths and bytes.
//! - `byte_calls`, `sort_calls`, `window_calls`, `encoder_calls`, `parallel_calls`,
//!   `pack_calls`, `wide_calls`: the same of the calls themselves, by what goes in and what
//!   comes out.
pub mod arrival;
pub mod buckets;
pub mod byte_calls;
pub mod delta;
pub mod delta_laws;
pub mod encode;
pub mod encoder;
pub mod encoder_calls;
pub mod error;
pub mod format;
pub mod hash;
pub mod laws;
pub mod names;
pub mod object;
pub mod order;
pub mod order_laws;
pub mod pack_calls;
pub mod parallel;
pub mod parallel_calls;
pub mod path;
pub mod plain_laws;
pub mod reading;
pub mod similarity;
pub mod sort_calls;
pub mod wide_calls;
pub mod window;
pub mod window_calls;
pub mod windowed;
