//! Variable-length integer codec with a positioned buffer writer.
//!
//! The crate provides three interchangeable ways of writing bytes at an
//! arbitrary offset into a growable byte buffer (overwriting existing bytes
//! and appending past the end), a raw little-endian fixed-width writer, a
//! family of LEB128 encoder and decoder strategies that all agree on one wire
//! format, and an alternate byte-oriented codec that uses length cut-points
//! instead of continuation bits.

pub mod bitops;
pub mod leb128;
pub mod lesqlite;
pub mod raw;
pub mod writer;
