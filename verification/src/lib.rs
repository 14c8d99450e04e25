//! A hash map in a file, read by ranges of the file.
//!
//! [`uio::UniversalHashMap`] reads a map through any [`universal_io::UniversalRead`]
//! storage. The file holds a perfect hash function, a table of buckets and the
//! entries; [`model`] says what such a file answers, and [`format`] how it is
//! written and what follows from that. [`laws`] says what the operations give for the
//! bytes of a file, position by position.

pub mod buffer;
pub mod bytes;
mod chunks;
pub mod entry;
pub mod format;
pub mod header;
pub mod key;
pub mod laws;
pub mod lookup;
pub mod model;
pub mod phf;
pub mod pipeline;
pub mod scan;
pub mod sparse;
pub mod steps;
pub mod sum;
pub mod uio;
pub mod universal_io;
pub mod value;
pub mod visit;
