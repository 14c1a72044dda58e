//! Counting of canonical k-mers in nucleotide sequences, and the spectrum
//! (frequency histogram) of the counts.
pub mod complement;
pub mod counter;
pub mod engine;
pub mod fasta;
pub mod histogram;
pub mod kmer;
