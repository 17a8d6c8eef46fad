//! Approximate k-mer counting and coverage classification of single-base
//! sites in DNA reads.
//!
//! Reads are cut into fixed-length windows (k-mers), packed two bits per base
//! and put on their canonical strand. Each k-mer belongs to a family: the four
//! k-mers that differ only at the middle base. Families are spread over shards
//! by their key; each shard counts its k-mers in an approximate counter and
//! remembers the families that reached a minimum coverage. A shard then
//! classifies each remembered family from the counts of its four members.
pub mod codec;
pub mod counter;
pub mod keyset;
pub mod classify;
pub mod shard;
pub mod engine;
