//! Landmarks: one family of standing stones in three silhouettes, described
//! by a small descriptor and compiled once into voxels.

pub mod compile;
pub mod descriptor;
pub mod masses;
pub mod material;
pub mod plan;
pub mod siting;

use vstd::prelude::*;

verus! {

/// Shape of the landmark descriptor.
pub const LANDMARK_SCHEMA_VERSION: u32 = 1;
/// How a descriptor becomes voxels.
pub const LANDMARK_COMPILER_VERSION: u32 = 1;
/// How sites, the overlook and the reservations are chosen.
pub const LANDMARK_PLAN_VERSION: u32 = 1;
/// Version of the landmark style contract.
pub const LANDMARK_STYLE_VERSION: u32 = 1;
/// Locked signature of the golden landmark plan.
pub const LANDMARK_BEHAVIOR_SIGNATURE: u64 = 0xe97b_ee8f_8573_7e95;

} // verus!
