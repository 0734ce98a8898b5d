use vstd::prelude::*;

pub mod bytes;
pub mod combat;
pub mod hash;
pub mod procedural;
pub mod streaming;
pub mod tags;
pub mod voxel;

verus! {
}
