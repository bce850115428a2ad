//! Configuration surface shared by extraction, windowing and correction.

use vstd::prelude::*;

verus! {

/// The density value 1.0: every window hash lies strictly below `1 << 64`.
pub const DENSITY_ONE: u128 = 0x1_0000_0000_0000_0000;

/// The density value 0.0: no window hash lies strictly below zero.
pub const DENSITY_NONE: u128 = 0;

/// Run-time configuration.
///
/// `density` is the sampling rate written as a fraction of `1 << 64`:
/// a window whose hash is `h` passes the prefilter iff `h < density`.
/// `DENSITY_ONE` accepts every window, `DENSITY_NONE` accepts none.
pub struct Params {
    /// Sampling rate scaled by `1 << 64`.
    pub density: u128,
    /// Minimizer (window) length in bases.
    pub l: usize,
    /// K-mer size in tokens.
    pub k: usize,
    /// Neighbor-index window size in tokens.
    pub n: usize,
    /// Input sequences are already homopolymer-compressed.
    pub use_hpc: bool,
    /// Select the universe-hitting-set strategy.
    pub uhs: bool,
    /// Select the longest-common-prefix strategy.
    pub lcp: bool,
    /// Correction mode: redirect window text through the vocabulary.
    pub error_correct: bool,
    /// Window counts available: also redirect through the vocabulary.
    pub has_lmer_counts: bool,
    /// Propagation budget: how many neighbors may receive a correction.
    pub correction_threshold: usize,
    /// Retention bound of the similarity filter, an exact fraction
    /// `dist_threshold.0 / dist_threshold.1`: a neighbor is retained iff
    /// its share of unshared tokens lies strictly below it. The distance
    /// metric itself is an outside collaborator; the caller turns its
    /// 0.15 mash-distance cutoff into this bound (floating-point work
    /// that lives outside the library).
    pub dist_threshold: (usize, usize),
    /// Tracing only; no behavioral effect.
    pub debug: bool,
}

/// A window hash `h` passes the density prefilter iff `h < density`.
pub open spec fn spec_hash_passes(h: u64, density: u128) -> bool {
    (h as u128) < density
}

/// Decide the density prefilter for one window hash.
pub fn hash_passes(h: u64, density: u128) -> (r: bool)
    ensures
        r == spec_hash_passes(h, density),
{
    (h as u128) < density
}

/// Whether the configuration redirects window text through the vocabulary.
pub open spec fn spec_redirect(p: &Params) -> bool {
    p.error_correct || p.has_lmer_counts
}

} // verus!
