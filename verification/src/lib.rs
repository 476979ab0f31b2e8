//! Sketches of the k-mers of a DNA sequence, and estimates of how similar two
//! sequences are from their sketches alone.
//!
//! A [`Masher`] holds the parameters: the k-mer length, the sketch size, the
//! number of bits kept of each retained hash, and whether k-mers are hashed
//! on the forward strand only or canonically. It builds either of two
//! sketches: the [`BottomMash`] holds the smallest distinct k-mer hashes, the
//! [`BinMash`] the smallest hash of each remainder class modulo the sketch
//! size.
pub mod bins;
pub mod bottom;
pub mod bound;
pub mod collect;
pub mod fastmod;
mod hint;
pub mod masher;
pub mod order;
pub mod similarity;
pub mod sketch;

pub use bins::BinMash;
pub use bottom::BottomMash;
pub use fastmod::FM32;
pub use masher::Masher;
pub use similarity::Similarity;
pub use sketch::BitSketch;
