//! Small DNA toolkit: bases, sequences, a two-bit packed codec and an exact
//! k-mer locator, with every operation stated and proved.

pub mod base;
pub mod sequence;
pub mod kmer;

pub use base::Base;
pub use sequence::{BaseCount, Sequence};
pub use kmer::find_kmers;
