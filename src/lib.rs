//! Counting of fixed-length nucleotide substrings (k-mers) in a DNA sequence.

pub mod kmer;
pub mod counts;
pub mod report;
pub mod histogram;
