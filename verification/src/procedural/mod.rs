//! Deterministic world generation: what is in the world at a given place.
//!
//! Everything here is a pure function of a position and a world identity.

pub mod identity;
pub mod landmark;
pub mod material;
pub mod noise;
pub mod region;
pub mod terrain;
pub mod vegetation;
