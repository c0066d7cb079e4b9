//! Reconstruction of a raw filesystem image from a sparse data stream and a
//! textual transfer-list manifest.
//!
//! The manifest names, per command kind (`erase`, `new`, `zero`), the block
//! ranges of the output image it concerns. Only `new` ranges consume data
//! from the input stream; everything else in the image stays zero. The
//! modules below hold the range parser, the transfer-list decoder and the
//! block-placement engine, each with a contract over a mathematical model
//! of its input bytes.

pub mod builder;
pub mod text;
pub mod transfer_list;

pub use transfer_list::parse_ranges;
