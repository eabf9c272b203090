//! Risk-calibrated memory request recommendations for fleets of
//! short-lived workloads.
//!
//! The crate records historical usage samples per entity in bounded-error
//! percentile histograms, keeps an aggregate usage series together with a
//! per-timestamp presence index, and searches for the smallest global
//! percentile whose per-entity recommendations under-cover the observed
//! aggregate demand on no more than a caller-chosen fraction of the
//! historical timestamps.

pub mod analysis;
pub mod codec;
pub mod dataset;
pub mod histogram;
