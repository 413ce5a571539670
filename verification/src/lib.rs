//! Record codec and secondary-index builder for measured network circuits.
//!
//! One input line describes a circuit and its ordered cell events; the
//! library decodes such a line into a strictly-typed, fixed-size record,
//! packs strings into fixed-width null-padded ASCII buffers, and builds
//! sorted secondary indices (by identifier, label, day, port and length)
//! over a sequence of decoded records.

pub mod error;
pub mod cell;
pub mod circuit;
pub mod codec;
pub mod codes;
pub mod decode;
pub mod fixedstr;
pub mod index;
pub mod indices;
