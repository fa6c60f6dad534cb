//! Dinucleotide-repeat collapsing and filtering of sequencing reads.

pub mod nucleotide;
pub mod collapse;
pub mod threshold;
pub mod stream;
