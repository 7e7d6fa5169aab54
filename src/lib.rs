//! Copy-number concordance and heterozygous SNP selection for tumor-normal sequencing data.
//!
//! - `segments`: chromosome-partitioned segment sets and their areas.
//! - `parse`: the truth and predicted segment file formats.
//! - `reconcile`: overlap of two segment sets and the integer parts of recall and precision.
//! - `recall_precision`: the files of a recall/precision run.
//! - `snp`: filtering of variant records into coordinate-keyed stores, and the join of a
//!   tumor store with a normal store.
pub mod parse;
pub mod recall_precision;
pub mod reconcile;
pub mod segments;
pub mod snp;
