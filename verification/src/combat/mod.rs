//! Combat objects: a weapon, described by a descriptor and validated into the
//! voxel layout it occupies.

pub mod paint;
pub mod weapon;
