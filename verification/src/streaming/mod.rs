//! Bounded chunk residency: demand sets, levels of detail, the disk cache of
//! source results and the finite diagnostic source.

pub mod cache;
pub mod demand;
pub mod runtime;
pub mod source;
pub mod types;
