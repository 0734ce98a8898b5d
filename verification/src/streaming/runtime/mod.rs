//! The decisions of the streaming runtime that stand on their own: what to
//! dispatch next, how far a chunk is from the demand center, which
//! invalidations are presentation only, and the counters it reports.

pub mod record;
pub mod state;

use vstd::prelude::*;

use crate::streaming::types::LodLevel;
use crate::voxel::ChunkCoord;

verus! {

/// Consecutive mesh dispatches after which a ready load goes first.
pub const MESH_BURST_BEFORE_LOAD: u8 = 4;

/// Where a tracked chunk's payload stands.
#[derive(Clone, Copy, Debug, PartialEq, Eq, Structural)]
pub enum ResidencyStatus {
    LoadQueued,
    Loading,
    CpuResident,
    KnownAbsent,
    EvictPending,
}

/// Where a tracked chunk's mesh stands.
#[derive(Clone, Copy, Debug, PartialEq, Eq, Structural)]
pub enum MeshStatus {
    NotRequired,
    WaitingForNeighbors,
    Dirty,
    Meshing,
    CpuReady,
    /// Nothing pending: the committed mesh is the current target.
    Committed,
}

/// One tracked record as an observer sees it, for debug visualization.
#[derive(Clone, Copy, Debug, PartialEq, Eq, Structural)]
pub struct TrackedState {
    pub coord: ChunkCoord,
    pub residency: ResidencyStatus,
    pub mesh: MeshStatus,
    /// Presentation level assigned to the record, drawn or not.
    pub lod: LodLevel,
    /// A committed mesh exists, so the presentation may be drawing it.
    pub committed: bool,
    /// A replacement for the current target is meshed and waiting to commit.
    pub pending: bool,
}

/// Count, total, and maximum of a measured duration, in microseconds.
#[derive(Clone, Copy, Debug, PartialEq, Eq, Structural)]
pub struct TimingStat {
    pub count: u64,
    pub total_us: u64,
    pub max_us: u64,
}

/// A statistic after one more measurement of `micros` microseconds, or as
/// it was once its count can grow no further.
pub open spec fn spec_timing_recorded(stat: TimingStat, micros: u64) -> TimingStat {
    if stat.count < u64::MAX {
        TimingStat {
            count: (stat.count + 1) as u64,
            total_us: if stat.total_us + micros > u64::MAX {
                u64::MAX
            } else {
                (stat.total_us + micros) as u64
            },
            max_us: if micros > stat.max_us {
                micros
            } else {
                stat.max_us
            },
        }
    } else {
        stat
    }
}

impl TimingStat {
    /// Records one measurement of `micros` microseconds: the total saturates,
    /// the maximum keeps the larger.
    pub fn record(&mut self, micros: u64)
        requires
            old(self).count < u64::MAX,
        ensures
            final(self).count == old(self).count + 1,
            final(self).total_us == if old(self).total_us + micros > u64::MAX {
                u64::MAX as int
            } else {
                old(self).total_us + micros
            },
            final(self).max_us == if micros > old(self).max_us {
                micros
            } else {
                old(self).max_us
            },
    {
        self.count = self.count + 1;
        self.total_us = self.total_us.saturating_add(micros);
        if micros > self.max_us {
            self.max_us = micros;
        }
    }

    /// The mean measurement, or zero before the first.
    pub fn mean_us(&self) -> (mean: u64)
        ensures
            mean == if self.count == 0 {
                0
            } else {
                self.total_us / self.count
            },
    {
        if self.count == 0 {
            0
        } else {
            self.total_us / self.count
        }
    }
}

/// Counters the runtime keeps of what it did.
#[derive(Clone, Copy, Debug, PartialEq, Eq)]
pub struct RuntimeMetrics {
    pub load_jobs_dispatched: u64,
    pub mesh_jobs_dispatched: u64,
    pub accepted_load_results: u64,
    pub accepted_mesh_results: u64,
    pub stale_load_results: u64,
    pub stale_mesh_results: u64,
    pub fairness_load_dispatches: u64,
    pub hard_cap_blocks: u64,
    pub snapshot_bytes_dispatched: u64,
    pub cpu_evictions_finalized: u64,
    pub eviction_budget_hits: u64,
    /// Render-demand chunks whose desired level changed.
    pub lod_swaps: u64,
    /// Presentation-only invalidations that kept the committed mesh drawable
    /// while a replacement was prepared.
    pub committed_retained: u64,
    /// Committed meshes dropped immediately for a data reason.
    pub committed_dropped: u64,
    /// Transition groups committed atomically, and chunks committed by them.
    pub transition_commits: u64,
    pub transition_chunks_committed: u64,
    /// Stale mesh results attributable to a level change of the center or of
    /// a neighbor's presentation.
    pub stale_lod_results: u64,
    /// Orchestration time spent building owned mesh snapshots.
    pub snapshot_build: TimingStat,
    /// Portion of snapshot building spent deriving coarse-level data.
    pub lod1_derivation: TimingStat,
    /// Worker time inside the mesher for full-detail jobs.
    pub worker_mesh_lod0: TimingStat,
    /// Worker time inside the mesher for coarse jobs.
    pub worker_mesh_lod1: TimingStat,
}

impl Default for TimingStat {
    fn default() -> (stat: Self)
        ensures
            stat == (TimingStat { count: 0, total_us: 0, max_us: 0 }),
    {
        TimingStat { count: 0, total_us: 0, max_us: 0 }
    }
}

impl Default for RuntimeMetrics {
    fn default() -> (metrics: Self)
        ensures
            metrics == RuntimeMetrics::spec_zero(),
    {
        let zero = TimingStat { count: 0, total_us: 0, max_us: 0 };
        RuntimeMetrics {
            load_jobs_dispatched: 0,
            mesh_jobs_dispatched: 0,
            accepted_load_results: 0,
            accepted_mesh_results: 0,
            stale_load_results: 0,
            stale_mesh_results: 0,
            fairness_load_dispatches: 0,
            hard_cap_blocks: 0,
            snapshot_bytes_dispatched: 0,
            cpu_evictions_finalized: 0,
            eviction_budget_hits: 0,
            lod_swaps: 0,
            committed_retained: 0,
            committed_dropped: 0,
            transition_commits: 0,
            transition_chunks_committed: 0,
            stale_lod_results: 0,
            snapshot_build: zero,
            lod1_derivation: zero,
            worker_mesh_lod0: zero,
            worker_mesh_lod1: zero,
        }
    }
}

impl RuntimeMetrics {
    /// Every counter at zero.
    pub open spec fn spec_zero() -> Self {
        let zero = TimingStat { count: 0, total_us: 0, max_us: 0 };
        RuntimeMetrics {
            load_jobs_dispatched: 0,
            mesh_jobs_dispatched: 0,
            accepted_load_results: 0,
            accepted_mesh_results: 0,
            stale_load_results: 0,
            stale_mesh_results: 0,
            fairness_load_dispatches: 0,
            hard_cap_blocks: 0,
            snapshot_bytes_dispatched: 0,
            cpu_evictions_finalized: 0,
            eviction_budget_hits: 0,
            lod_swaps: 0,
            committed_retained: 0,
            committed_dropped: 0,
            transition_commits: 0,
            transition_chunks_committed: 0,
            stale_lod_results: 0,
            snapshot_build: zero,
            lod1_derivation: zero,
            worker_mesh_lod0: zero,
            worker_mesh_lod1: zero,
        }
    }
}

/// One aggregate observation of runtime state, cheap enough to sample per
/// frame.
#[derive(Clone, Copy, Debug, PartialEq, Eq, Structural)]
pub struct ResidencySummary {
    /// Records the runtime holds.
    pub tracked_records: usize,
    pub load_queued: usize,
    pub loading: usize,
    pub cpu_resident: usize,
    pub known_absent: usize,
    pub evict_pending: usize,
    pub mesh_waiting: usize,
    pub mesh_dirty: usize,
    pub mesh_meshing: usize,
    pub mesh_ready: usize,
    pub queued_loads: usize,
    pub queued_meshes: usize,
    pub jobs_in_flight: usize,
    pub reserved_load_slots: usize,
    pub resident_payload_bytes: usize,
    pub cpu_mesh_bytes: usize,
    /// Render-demand chunks desired at each level.
    pub lod0_desired: usize,
    pub lod1_desired: usize,
    /// Render-demand chunks the source confirmed absent.
    pub render_known_absent: usize,
    /// Pending ready meshes at each level.
    pub lod0_ready: usize,
    pub lod1_ready: usize,
    /// Committed meshes at each level.
    pub lod0_committed: usize,
    pub lod1_committed: usize,
    /// Committed meshes whose target differs.
    pub transition_pending: usize,
}

/// Why a record's current mesh stopped being valid.
#[derive(Clone, Copy, Debug, PartialEq, Eq, Structural)]
pub enum InvalidationCause {
    /// The record's own desired level changed.
    LodChange,
    /// A neighbor's presentation changed.
    NeighborPresentation,
    /// The record entered or left the render set.
    Membership,
    /// Content arrived or changed, or a neighbor was loaded, evicted or
    /// replaced: the old geometry is genuinely wrong.
    Data,
}

/// Whether an invalidation leaves the committed mesh drawable while a
/// replacement is prepared: every cause but changed data.
pub fn cause_is_presentation_only(cause: InvalidationCause) -> (presentation: bool)
    ensures
        presentation == (cause != InvalidationCause::Data),
{
    match cause {
        InvalidationCause::LodChange
        | InvalidationCause::NeighborPresentation
        | InvalidationCause::Membership => true,
        InvalidationCause::Data => false,
    }
}

/// What the runtime should do next.
#[derive(Clone, Copy, Debug, PartialEq, Eq, Structural)]
pub enum Dispatch {
    Mesh,
    Load,
    Idle,
}

/// The dispatch order: a ready full-detail mesh first, then a ready load,
/// then a ready coarse mesh; after a burst of consecutive meshes a ready load
/// goes first.
pub open spec fn spec_choose_dispatch(mesh: Option<LodLevel>, load_ready: bool, consecutive: u8) -> Dispatch {
    match mesh {
        Some(LodLevel::Lod0) => if load_ready && consecutive >= MESH_BURST_BEFORE_LOAD {
            Dispatch::Load
        } else {
            Dispatch::Mesh
        },
        Some(LodLevel::Lod1) => if load_ready {
            Dispatch::Load
        } else {
            Dispatch::Mesh
        },
        None => if load_ready {
            Dispatch::Load
        } else {
            Dispatch::Idle
        },
    }
}

/// What to dispatch, given the level of the most urgent ready mesh, whether a
/// load is ready, and how many meshes went out in a row.
pub fn choose_dispatch(mesh: Option<LodLevel>, load_ready: bool, consecutive: u8) -> (next: Dispatch)
    ensures
        next == spec_choose_dispatch(mesh, load_ready, consecutive),
{
    match mesh {
        Some(LodLevel::Lod0) => {
            if load_ready && consecutive >= MESH_BURST_BEFORE_LOAD {
                Dispatch::Load
            } else {
                Dispatch::Mesh
            }
        },
        Some(LodLevel::Lod1) => {
            if load_ready {
                Dispatch::Load
            } else {
                Dispatch::Mesh
            }
        },
        None => {
            if load_ready {
                Dispatch::Load
            } else {
                Dispatch::Idle
            }
        },
    }
}

pub open spec fn spec_axis_gap(left: i32, right: i32) -> int {
    if left >= right {
        left - right
    } else {
        right - left
    }
}

/// Chebyshev distance between two chunks: the largest per-axis gap.
pub open spec fn spec_chebyshev(coord: ChunkCoord, center: ChunkCoord) -> int {
    let x = spec_axis_gap(coord.x, center.x);
    let y = spec_axis_gap(coord.y, center.y);
    let z = spec_axis_gap(coord.z, center.z);
    let xy = if x >= y {
        x
    } else {
        y
    };
    if xy >= z {
        xy
    } else {
        z
    }
}

/// Chebyshev distance between two chunks, saturating at `u32::MAX`.
pub fn chebyshev_distance(coord: ChunkCoord, center: ChunkCoord) -> (distance: u32)
    ensures
        distance == if spec_chebyshev(coord, center) > u32::MAX {
            u32::MAX as int
        } else {
            spec_chebyshev(coord, center)
        },
{
    let x = axis_gap(coord.x, center.x);
    let y = axis_gap(coord.y, center.y);
    let z = axis_gap(coord.z, center.z);
    let xy = if x >= y {
        x
    } else {
        y
    };
    let largest = if xy >= z {
        xy
    } else {
        z
    };
    if largest > u32::MAX as u64 {
        u32::MAX
    } else {
        largest as u32
    }
}

fn axis_gap(left: i32, right: i32) -> (gap: u64)
    ensures
        gap == spec_axis_gap(left, right),
{
    let difference = left as i64 - right as i64;
    if difference >= 0 {
        difference as u64
    } else {
        (-difference) as u64
    }
}

/// The squared gap between two coordinates on one axis.
pub fn axis_distance(left: i32, right: i32) -> (squared: u128)
    ensures
        squared == spec_axis_gap(left, right) * spec_axis_gap(left, right),
{
    let gap = axis_gap(left, right) as u128;
    proof {
        assert(gap * gap <= 0x1_0000_0000 * 0x1_0000_0000) by (nonlinear_arith)
            requires
                gap <= 0x1_0000_0000,
        ;
    }
    gap * gap
}

} // verus!
