//! Collapsing of sequencing reads that share a barcode and a unique molecular
//! identifier: an index of duplicate groups built from an offset table, its
//! statistics, and the records emitted for each group.

pub mod call;
pub mod cli;
pub mod duplicates;
