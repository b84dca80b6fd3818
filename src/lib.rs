//! Applies a uniform saturating brightness increment to every pixel of an
//! interleaved RGBA raster, sequentially or in parallel over a decomposition of
//! the pixel space into linear batches or rectangular tiles, and summarises
//! timing series of those runs.

pub mod executor;
pub mod partition;
pub mod stats;
pub mod strategy;
pub mod transform;
