//! Minimizer-space representation of sequencing reads.
//!
//! A raw nucleotide read is homopolymer-compressed, sketched into an ordered
//! stream of minimizer tokens, and either windowed into canonical k-mers for
//! graph construction or corrected against similar reads by a column-wise
//! consensus over semiglobal alignments.

pub mod params;
pub mod hpc;
pub mod hashes;
pub mod vocab;
pub mod sketch;
pub mod kmer;
pub mod table;
pub mod dist;
pub mod align;
pub mod correct;
pub mod read;

use vstd::prelude::*;

verus! {

} // verus!
