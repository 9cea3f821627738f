//! An interactive exploration library for a relative-error quantile digest:
//! it generates synthetic latency samples, feeds them into a compact
//! log-binned digest, and prepares two histograms -- one over the raw
//! samples, one over the digest's bins -- so a caller can see how the
//! digest's bin limit trades memory for fidelity.

use vstd::prelude::*;

pub mod chart;
pub mod digest;
pub mod gen;
pub mod histogram;
pub mod session;

verus! {

/// Number of whole bytes one retained raw sample occupies.
pub const SAMPLE_BYTES: usize = 8;

} // verus!
