//! Disk-backed external-sort-and-group engine for DNA k-mers.
//!
//! Reads are decoded elsewhere; this crate holds the verified core: 2-bit
//! k-mer encoding and canonicalization, the per-read k-mer extractor, record
//! serialization with total orders, the bucketing engine that sorts and
//! serializes spill files, the k-way merge over sorted buckets, and the
//! two-phase driver that groups equal k-mers and emits read pairs.
#![allow(unused_imports)]

pub mod bucket_list;
pub mod buf_reader_entry;
pub mod data_bucket;
pub mod kmer;
pub mod kmer_bits;
pub mod kmer_bucket;
pub mod kmer_read;
pub mod min_max_reads;
pub mod multi_bucket_reader;
pub mod order;
pub mod read_grouper;
pub mod read_pair_kmer;
pub mod sorting;

use vstd::prelude::*;

verus! {

/// Dense index of a read in ingestion order.
pub type ReadId = u32;

/// The failures the phase drivers surface.
#[derive(Clone, Copy, Debug, PartialEq, Eq, Structural)]
pub enum GrouperError {
    /// A bucket file held no complete record.
    EmptyBucket,
}

} // verus!
