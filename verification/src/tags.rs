//! Domain-separation tags: the ASCII prefixes every fingerprint hashes
//! first, so two kinds of identity can never share a byte string.

use vstd::prelude::*;

verus! {

/// The ASCII bytes of `veldwake.terrain`.
pub open spec fn spec_tag_terrain() -> Seq<u8> {
    seq![0x76u8, 0x65u8, 0x6cu8, 0x64u8, 0x77u8, 0x61u8, 0x6bu8, 0x65u8, 0x2eu8, 0x74u8, 0x65u8, 0x72u8, 0x72u8, 0x61u8, 0x69u8, 0x6eu8]
}

/// The ASCII bytes of `veldwake.terrain`.
pub fn tag_terrain() -> (bytes: Vec<u8>)
    ensures
        bytes@ == spec_tag_terrain(),
{
    vec![0x76u8, 0x65u8, 0x6cu8, 0x64u8, 0x77u8, 0x61u8, 0x6bu8, 0x65u8, 0x2eu8, 0x74u8, 0x65u8, 0x72u8, 0x72u8, 0x61u8, 0x69u8, 0x6eu8]
}

/// The ASCII bytes of `veldwake.landmark.descriptor`.
pub open spec fn spec_tag_landmark_descriptor() -> Seq<u8> {
    seq![0x76u8, 0x65u8, 0x6cu8, 0x64u8, 0x77u8, 0x61u8, 0x6bu8, 0x65u8, 0x2eu8, 0x6cu8, 0x61u8, 0x6eu8, 0x64u8, 0x6du8, 0x61u8, 0x72u8, 0x6bu8, 0x2eu8, 0x64u8, 0x65u8, 0x73u8, 0x63u8, 0x72u8, 0x69u8, 0x70u8, 0x74u8, 0x6fu8, 0x72u8]
}

/// The ASCII bytes of `veldwake.landmark.descriptor`.
pub fn tag_landmark_descriptor() -> (bytes: Vec<u8>)
    ensures
        bytes@ == spec_tag_landmark_descriptor(),
{
    vec![0x76u8, 0x65u8, 0x6cu8, 0x64u8, 0x77u8, 0x61u8, 0x6bu8, 0x65u8, 0x2eu8, 0x6cu8, 0x61u8, 0x6eu8, 0x64u8, 0x6du8, 0x61u8, 0x72u8, 0x6bu8, 0x2eu8, 0x64u8, 0x65u8, 0x73u8, 0x63u8, 0x72u8, 0x69u8, 0x70u8, 0x74u8, 0x6fu8, 0x72u8]
}

/// The ASCII bytes of `veldwake.landmark.geometry`.
pub open spec fn spec_tag_landmark_geometry() -> Seq<u8> {
    seq![0x76u8, 0x65u8, 0x6cu8, 0x64u8, 0x77u8, 0x61u8, 0x6bu8, 0x65u8, 0x2eu8, 0x6cu8, 0x61u8, 0x6eu8, 0x64u8, 0x6du8, 0x61u8, 0x72u8, 0x6bu8, 0x2eu8, 0x67u8, 0x65u8, 0x6fu8, 0x6du8, 0x65u8, 0x74u8, 0x72u8, 0x79u8]
}

/// The ASCII bytes of `veldwake.landmark.geometry`.
pub fn tag_landmark_geometry() -> (bytes: Vec<u8>)
    ensures
        bytes@ == spec_tag_landmark_geometry(),
{
    vec![0x76u8, 0x65u8, 0x6cu8, 0x64u8, 0x77u8, 0x61u8, 0x6bu8, 0x65u8, 0x2eu8, 0x6cu8, 0x61u8, 0x6eu8, 0x64u8, 0x6du8, 0x61u8, 0x72u8, 0x6bu8, 0x2eu8, 0x67u8, 0x65u8, 0x6fu8, 0x6du8, 0x65u8, 0x74u8, 0x72u8, 0x79u8]
}

/// The ASCII bytes of `veldwake.landmark.controls`.
pub open spec fn spec_tag_landmark_controls() -> Seq<u8> {
    seq![0x76u8, 0x65u8, 0x6cu8, 0x64u8, 0x77u8, 0x61u8, 0x6bu8, 0x65u8, 0x2eu8, 0x6cu8, 0x61u8, 0x6eu8, 0x64u8, 0x6du8, 0x61u8, 0x72u8, 0x6bu8, 0x2eu8, 0x63u8, 0x6fu8, 0x6eu8, 0x74u8, 0x72u8, 0x6fu8, 0x6cu8, 0x73u8]
}

/// The ASCII bytes of `veldwake.landmark.controls`.
pub fn tag_landmark_controls() -> (bytes: Vec<u8>)
    ensures
        bytes@ == spec_tag_landmark_controls(),
{
    vec![0x76u8, 0x65u8, 0x6cu8, 0x64u8, 0x77u8, 0x61u8, 0x6bu8, 0x65u8, 0x2eu8, 0x6cu8, 0x61u8, 0x6eu8, 0x64u8, 0x6du8, 0x61u8, 0x72u8, 0x6bu8, 0x2eu8, 0x63u8, 0x6fu8, 0x6eu8, 0x74u8, 0x72u8, 0x6fu8, 0x6cu8, 0x73u8]
}

/// The ASCII bytes of `veldwake.landmark.plan`.
pub open spec fn spec_tag_landmark_plan() -> Seq<u8> {
    seq![0x76u8, 0x65u8, 0x6cu8, 0x64u8, 0x77u8, 0x61u8, 0x6bu8, 0x65u8, 0x2eu8, 0x6cu8, 0x61u8, 0x6eu8, 0x64u8, 0x6du8, 0x61u8, 0x72u8, 0x6bu8, 0x2eu8, 0x70u8, 0x6cu8, 0x61u8, 0x6eu8]
}

/// The ASCII bytes of `veldwake.landmark.plan`.
pub fn tag_landmark_plan() -> (bytes: Vec<u8>)
    ensures
        bytes@ == spec_tag_landmark_plan(),
{
    vec![0x76u8, 0x65u8, 0x6cu8, 0x64u8, 0x77u8, 0x61u8, 0x6bu8, 0x65u8, 0x2eu8, 0x6cu8, 0x61u8, 0x6eu8, 0x64u8, 0x6du8, 0x61u8, 0x72u8, 0x6bu8, 0x2eu8, 0x70u8, 0x6cu8, 0x61u8, 0x6eu8]
}

/// The ASCII bytes of `veldwake.diagnostic-chunk-source`.
pub open spec fn spec_tag_diagnostic_source() -> Seq<u8> {
    seq![0x76u8, 0x65u8, 0x6cu8, 0x64u8, 0x77u8, 0x61u8, 0x6bu8, 0x65u8, 0x2eu8, 0x64u8, 0x69u8, 0x61u8, 0x67u8, 0x6eu8, 0x6fu8, 0x73u8, 0x74u8, 0x69u8, 0x63u8, 0x2du8, 0x63u8, 0x68u8, 0x75u8, 0x6eu8, 0x6bu8, 0x2du8, 0x73u8, 0x6fu8, 0x75u8, 0x72u8, 0x63u8, 0x65u8]
}

/// The ASCII bytes of `veldwake.diagnostic-chunk-source`.
pub fn tag_diagnostic_source() -> (bytes: Vec<u8>)
    ensures
        bytes@ == spec_tag_diagnostic_source(),
{
    vec![0x76u8, 0x65u8, 0x6cu8, 0x64u8, 0x77u8, 0x61u8, 0x6bu8, 0x65u8, 0x2eu8, 0x64u8, 0x69u8, 0x61u8, 0x67u8, 0x6eu8, 0x6fu8, 0x73u8, 0x74u8, 0x69u8, 0x63u8, 0x2du8, 0x63u8, 0x68u8, 0x75u8, 0x6eu8, 0x6bu8, 0x2du8, 0x73u8, 0x6fu8, 0x75u8, 0x72u8, 0x63u8, 0x65u8]
}

} // verus!
