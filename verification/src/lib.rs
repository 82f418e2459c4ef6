//! Incremental, parallel asset-export pipeline for a versioned third-party
//! application: version-gated acquisition of the application payload,
//! extraction of asset references from its export document, per-asset change
//! detection against persisted fingerprints, power-of-two normalization
//! planning, and the bookkeeping of a bounded transcode worker pool.

pub mod acquire;
pub mod assoc;
pub mod bundle;
pub mod fingerprint;
pub mod locale;
pub mod normalize;
pub mod pool;
pub mod refs;
pub mod serve;
pub mod text;
