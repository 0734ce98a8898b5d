use lib::streaming::demand::StreamingConfig;
use lib::streaming::runtime::record::{LoadQueueEntry, MeshQueueEntry};
use lib::streaming::runtime::state::{InFlight, Job, RuntimeError, SlabSource, StreamingRuntime};
use lib::streaming::runtime::{
    InvalidationCause, MeshStatus, ResidencyStatus,
    MESH_BURST_BEFORE_LOAD,
};
use lib::streaming::source::{DiagnosticChunkSource, SourceChunk};
use lib::streaming::types::{LodLevel, NeighborStamp, RequestToken, SeamContract};
use lib::voxel::{Chunk, ChunkCoord, Face, CHUNK_BYTES};

type Runtime = StreamingRuntime<()>;

fn runtime_with(config: StreamingConfig) -> Result<Runtime, RuntimeError> {
    StreamingRuntime::new(config, ChunkCoord::default())
}

fn faces() -> Vec<Face> {
    (0..6).map(Face::from_index).collect()
}

/// Puts `coord` through a load that the worker took and answered at once.
fn force_load(runtime: &mut Runtime, coord: ChunkCoord, source: SourceChunk) -> Result<RequestToken, RuntimeError> {
    let token = runtime.request_token(coord).ok_or(RuntimeError::WorkerDisconnected)?;
    runtime.load_dispatched(LoadQueueEntry { squared: 0, coord, token });
    runtime.job_finished();
    runtime.integrate_load(coord, token, source)?;
    Ok(token)
}

fn load_center_neighborhood(runtime: &mut Runtime) -> Result<(), RuntimeError> {
    let center = ChunkCoord::default();
    force_load(runtime, center, DiagnosticChunkSource.load(center))?;
    for face in faces() {
        let coord = center.neighbor(face).ok_or(RuntimeError::WorkerDisconnected)?;
        force_load(runtime, coord, DiagnosticChunkSource.load(coord))?;
    }
    Ok(())
}

/// Marks the record of `coord` as meshing `stamp`, as a dispatch would.
fn start_meshing(runtime: &mut Runtime, coord: ChunkCoord) -> Result<lib::streaming::types::MeshStamp, RuntimeError> {
    let stamp = runtime.current_mesh_stamp(coord).ok_or(RuntimeError::WorkerDisconnected)?;
    let token = runtime.request_token(coord).ok_or(RuntimeError::WorkerDisconnected)?;
    let entry = MeshQueueEntry {
        rank: 0,
        squared: 0,
        coord,
        token,
        mesh_generation: stamp.mesh_generation,
        lod: stamp.lod,
    };
    runtime.mesh_dispatched(entry, stamp, 0);
    runtime.job_finished();
    Ok(stamp)
}

/// Hands the next job to a worker that accepts it; its result stays out.
fn dispatch_one(runtime: &mut Runtime) {
    match runtime.next_job() {
        Job::Load { entry } => runtime.load_dispatched(entry),
        Job::Mesh { entry, stamp } => {
            if runtime.snapshot_plan(&stamp).is_some() {
                let derivation = if stamp.lod == LodLevel::Lod1 { 1 } else { 0 };
                runtime.record_snapshot(stamp.lod, 1, derivation);
                runtime.mesh_dispatched(entry, stamp, 0);
            }
        },
        Job::Idle => {},
    }
}

/// One update of a synchronous worker: the pending job is answered, the
/// backlog is released within its budget, and one new job goes out.
fn poll(runtime: &mut Runtime, pending: &mut Option<Job>) -> Result<(), RuntimeError> {
    if let Some(job) = pending.take() {
        runtime.job_finished();
        match job {
            Job::Load { entry } => {
                runtime.integrate_load(entry.coord, entry.token, DiagnosticChunkSource.load(entry.coord))?
            },
            Job::Mesh { stamp, .. } => runtime.integrate_mesh(stamp, (), 1, 1),
            Job::Idle => {},
        }
    }
    runtime.finalize_evictions();
    if runtime.in_flight().is_none() {
        match runtime.next_job() {
            Job::Load { entry } => {
                runtime.load_dispatched(entry);
                *pending = Some(Job::Load { entry });
            },
            Job::Mesh { entry, stamp } => {
                if runtime.snapshot_plan(&stamp).is_some() {
                    let derivation = if stamp.lod == LodLevel::Lod1 { 1 } else { 0 };
                    runtime.record_snapshot(stamp.lod, 1, derivation);
                    runtime.mesh_dispatched(entry, stamp, 0);
                    *pending = Some(Job::Mesh { entry, stamp });
                }
            },
            Job::Idle => {},
        }
    }
    Ok(())
}

#[test]
fn teleport_never_exceeds_hard_cap() -> Result<(), RuntimeError> {
    let config = StreamingConfig { hard_resident_cap: 3, ..StreamingConfig::default() };
    let mut runtime = runtime_with(config)?;
    let mut pending = None;
    for _ in 0..200 {
        poll(&mut runtime, &mut pending)?;
        assert!(runtime.resident_payload_count() + runtime.reserved_load_count() <= 3);
    }
    runtime.set_demand_center(ChunkCoord::new(-20, 0, 20))?;
    for _ in 0..200 {
        poll(&mut runtime, &mut pending)?;
        assert!(runtime.resident_payload_count() + runtime.reserved_load_count() <= 3);
    }
    Ok(())
}

#[test]
fn load_reserves_hard_cap_capacity_before_dispatch() -> Result<(), RuntimeError> {
    let mut runtime = runtime_with(StreamingConfig { hard_resident_cap: 1, ..StreamingConfig::default() })?;
    dispatch_one(&mut runtime);
    assert_eq!(runtime.resident_payload_count(), 0);
    assert_eq!(runtime.reserved_load_count(), 1);
    assert_eq!(runtime.in_flight(), Some(InFlight::Load));
    Ok(())
}

#[test]
fn boundary_oscillation_preserves_retained_incarnations() -> Result<(), RuntimeError> {
    let mut runtime = runtime_with(StreamingConfig::default())?;
    let origin = ChunkCoord::default();
    let token = runtime.request_token(origin).ok_or(RuntimeError::WorkerDisconnected)?;
    runtime.set_demand_center(ChunkCoord::new(-1, 0, 0))?;
    runtime.set_demand_center(origin)?;
    assert_eq!(runtime.request_token(origin), Some(token));
    assert_eq!(runtime.tracked_count(), runtime.demand().dependency.len());
    Ok(())
}

#[test]
fn dependency_only_chunk_keeps_cpu_payload_without_mesh() -> Result<(), RuntimeError> {
    let mut runtime = runtime_with(StreamingConfig::default())?;
    load_center_neighborhood(&mut runtime)?;
    let origin = ChunkCoord::default();
    let token = runtime.request_token(origin).ok_or(RuntimeError::WorkerDisconnected)?;
    runtime.set_demand_center(ChunkCoord::new(2, 0, 0))?;
    assert_eq!(runtime.request_token(origin), Some(token));
    assert_eq!(runtime.residency_status(origin), Some(ResidencyStatus::CpuResident));
    assert_eq!(runtime.mesh_status(origin), Some(MeshStatus::NotRequired));
    Ok(())
}

#[test]
fn eviction_and_reentry_uses_a_new_token_and_rejects_aba_result() -> Result<(), RuntimeError> {
    let mut runtime = runtime_with(StreamingConfig::default())?;
    let coord = ChunkCoord::default();
    let old = runtime.request_token(coord).ok_or(RuntimeError::WorkerDisconnected)?;
    runtime.load_dispatched(LoadQueueEntry { squared: 0, coord, token: old });
    assert_eq!(runtime.residency_status(coord), Some(ResidencyStatus::Loading));
    runtime.set_demand_center(ChunkCoord::new(20, 0, 0))?;
    runtime.set_demand_center(coord)?;
    let new = runtime.request_token(coord).ok_or(RuntimeError::WorkerDisconnected)?;
    assert_ne!(old, new);
    runtime.integrate_load(coord, old, SourceChunk::Present(Chunk::empty()))?;
    assert_eq!(runtime.metrics().stale_load_results, 1);
    assert_eq!(runtime.reserved_load_count(), 0);
    assert_eq!(runtime.request_token(coord), Some(new));
    Ok(())
}

#[test]
fn stale_load_token_is_rejected() -> Result<(), RuntimeError> {
    let mut runtime = runtime_with(StreamingConfig::default())?;
    let coord = ChunkCoord::default();
    let current = runtime.request_token(coord).ok_or(RuntimeError::WorkerDisconnected)?;
    runtime.integrate_load(coord, RequestToken(current.0 + 10_000), SourceChunk::Present(Chunk::empty()))?;
    assert_eq!(runtime.metrics().stale_load_results, 1);
    assert_eq!(runtime.residency_status(coord), Some(ResidencyStatus::LoadQueued));
    Ok(())
}

#[test]
fn known_absent_unblocks_mesh_but_unavailable_neighbor_does_not() -> Result<(), RuntimeError> {
    let mut runtime = runtime_with(StreamingConfig::default())?;
    let center = ChunkCoord::default();
    force_load(&mut runtime, center, SourceChunk::Present(Chunk::empty()))?;
    assert_eq!(runtime.mesh_status(center), Some(MeshStatus::WaitingForNeighbors));
    for face in faces() {
        let coord = center.neighbor(face).ok_or(RuntimeError::WorkerDisconnected)?;
        force_load(&mut runtime, coord, SourceChunk::KnownAbsent)?;
    }
    assert_eq!(runtime.mesh_status(center), Some(MeshStatus::Dirty));
    Ok(())
}

#[test]
fn known_absent_render_chunk_never_reports_a_pending_mesh() -> Result<(), RuntimeError> {
    let mut runtime = runtime_with(StreamingConfig::default())?;
    let center = ChunkCoord::default();
    assert_eq!(
        runtime.mesh_status(center),
        Some(MeshStatus::WaitingForNeighbors),
        "a render chunk still loading is waiting for data"
    );
    force_load(&mut runtime, center, SourceChunk::KnownAbsent)?;
    assert_eq!(runtime.mesh_status(center), Some(MeshStatus::NotRequired));
    assert_eq!(runtime.summary().mesh_waiting, 26);
    runtime.set_demand_center(ChunkCoord::new(1, 0, 0))?;
    runtime.set_demand_center(center)?;
    assert_eq!(runtime.mesh_status(center), Some(MeshStatus::NotRequired));
    Ok(())
}

#[test]
fn neighbor_arrival_invalidates_current_mesh_immediately() -> Result<(), RuntimeError> {
    let mut runtime = runtime_with(StreamingConfig::default())?;
    load_center_neighborhood(&mut runtime)?;
    let center = ChunkCoord::default();
    let first = runtime.current_mesh_stamp(center).ok_or(RuntimeError::WorkerDisconnected)?;
    let neighbor = center.neighbor(Face::PositiveX).ok_or(RuntimeError::WorkerDisconnected)?;
    let content = runtime.resident_chunk(neighbor).cloned().ok_or(RuntimeError::WorkerDisconnected)?;
    assert_eq!(runtime.replace_content(neighbor, content)?, true);
    runtime.invalidate_neighbors(neighbor, InvalidationCause::Data)?;
    let replacement = runtime.current_mesh_stamp(center).ok_or(RuntimeError::WorkerDisconnected)?;
    assert_ne!(first.neighbors, replacement.neighbors);
    assert_eq!(runtime.mesh_status(center), Some(MeshStatus::Dirty));
    Ok(())
}

#[test]
fn stale_center_mesh_generation_is_rejected() -> Result<(), RuntimeError> {
    let mut runtime = runtime_with(StreamingConfig::default())?;
    load_center_neighborhood(&mut runtime)?;
    let center = ChunkCoord::default();
    let stale = start_meshing(&mut runtime, center)?;
    runtime.invalidate_mesh(center, InvalidationCause::Data)?;
    runtime.integrate_mesh(stale, (), 0, 0);
    assert_eq!(runtime.metrics().stale_mesh_results, 1);
    Ok(())
}

#[test]
fn stale_neighbor_generation_is_rejected() -> Result<(), RuntimeError> {
    let mut runtime = runtime_with(StreamingConfig::default())?;
    load_center_neighborhood(&mut runtime)?;
    let center = ChunkCoord::default();
    let stale = start_meshing(&mut runtime, center)?;
    let neighbor = center.neighbor(Face::NegativeZ).ok_or(RuntimeError::WorkerDisconnected)?;
    let content = runtime.resident_chunk(neighbor).cloned().ok_or(RuntimeError::WorkerDisconnected)?;
    runtime.replace_content(neighbor, content)?;
    runtime.integrate_mesh(stale, (), 0, 0);
    assert_eq!(runtime.metrics().stale_mesh_results, 1);
    Ok(())
}

#[test]
fn unload_during_mesh_job_discards_result() -> Result<(), RuntimeError> {
    let mut runtime = runtime_with(StreamingConfig::default())?;
    load_center_neighborhood(&mut runtime)?;
    let center = ChunkCoord::default();
    let stamp = start_meshing(&mut runtime, center)?;
    runtime.set_demand_center(ChunkCoord::new(20, 0, 0))?;
    runtime.integrate_mesh(stamp, (), 0, 0);
    assert_eq!(runtime.metrics().stale_mesh_results, 1);
    Ok(())
}

#[test]
fn scheduler_forces_load_after_four_meshes() -> Result<(), RuntimeError> {
    let mut runtime = runtime_with(StreamingConfig::default())?;
    load_center_neighborhood(&mut runtime)?;
    for _ in 0..MESH_BURST_BEFORE_LOAD {
        let center = ChunkCoord::default();
        start_meshing(&mut runtime, center)?;
        runtime.invalidate_mesh(center, InvalidationCause::Data)?;
    }
    assert_eq!(runtime.mesh_status(ChunkCoord::default()), Some(MeshStatus::Dirty));
    dispatch_one(&mut runtime);
    assert_eq!(runtime.metrics().fairness_load_dispatches, 1);
    assert_eq!(runtime.in_flight(), Some(InFlight::Load));
    Ok(())
}

#[test]
fn eviction_finalization_is_bounded_per_update() -> Result<(), RuntimeError> {
    let mut runtime = runtime_with(StreamingConfig { max_cpu_evictions_per_update: 2, ..StreamingConfig::default() })?;
    load_center_neighborhood(&mut runtime)?;
    runtime.set_demand_center(ChunkCoord::new(40, 0, 40))?;
    let backlog = runtime.eviction_backlog();
    assert!(backlog > 2, "teleport should retire more than one update");

    runtime.finalize_evictions();
    assert_eq!(runtime.eviction_backlog(), backlog - 2);
    assert_eq!(runtime.metrics().cpu_evictions_finalized, 2);
    assert_eq!(runtime.metrics().eviction_budget_hits, 1);
    Ok(())
}

#[test]
fn a_full_eviction_backlog_blocks_loads_until_it_is_released() -> Result<(), RuntimeError> {
    let cap = 7;
    let mut runtime = runtime_with(StreamingConfig {
        render_radius: 0,
        dependency_halo: 1,
        retention_radius: 1,
        hard_resident_cap: cap,
        max_cpu_evictions_per_update: 1,
        ..StreamingConfig::default()
    })?;
    load_center_neighborhood(&mut runtime)?;
    assert_eq!(runtime.resident_payload_count(), cap);

    runtime.set_demand_center(ChunkCoord::new(-64, 0, 64))?;
    assert_eq!(runtime.eviction_backlog(), cap);
    assert_eq!(runtime.resident_payload_count(), cap, "retired payloads must keep counting against the cap");

    dispatch_one(&mut runtime);
    assert_eq!(runtime.metrics().hard_cap_blocks, 1);
    assert!(runtime.in_flight().is_none());
    assert_eq!(runtime.reserved_load_count(), 0);

    runtime.finalize_evictions();
    assert_eq!(runtime.eviction_backlog(), cap - 1);
    assert_eq!(runtime.metrics().cpu_evictions_finalized, 1);
    assert_eq!(runtime.metrics().eviction_budget_hits, 1);
    dispatch_one(&mut runtime);
    assert_eq!(runtime.in_flight(), Some(InFlight::Load));
    assert_eq!(runtime.resident_payload_count() + runtime.reserved_load_count(), cap);
    Ok(())
}

#[test]
fn teleport_respects_the_hard_cap_while_an_eviction_backlog_drains() -> Result<(), RuntimeError> {
    let cap = 7;
    let mut runtime = runtime_with(StreamingConfig {
        render_radius: 0,
        dependency_halo: 1,
        retention_radius: 1,
        hard_resident_cap: cap,
        max_cpu_evictions_per_update: 1,
        ..StreamingConfig::default()
    })?;
    let mut pending = None;
    for _ in 0..10_000 {
        poll(&mut runtime, &mut pending)?;
        if runtime.is_idle() {
            break;
        }
    }
    assert!(runtime.is_idle());
    assert_eq!(runtime.resident_payload_count(), cap);

    runtime.set_demand_center(ChunkCoord::new(3, 0, -3))?;
    assert_eq!(runtime.eviction_backlog(), cap, "teleport should retire every previous payload");
    for _ in 0..10_000 {
        poll(&mut runtime, &mut pending)?;
        assert!(runtime.resident_payload_count() + runtime.reserved_load_count() <= cap);
        if runtime.is_idle() && runtime.eviction_backlog() == 0 {
            break;
        }
    }
    assert_eq!(runtime.eviction_backlog(), 0);
    assert!(runtime.is_idle());
    assert_eq!(runtime.metrics().cpu_evictions_finalized, cap as u64);
    assert!(runtime.metrics().eviction_budget_hits > 0);
    assert_eq!(runtime.resident_payload_count(), cap);
    assert_eq!(runtime.tracked_count(), cap);
    Ok(())
}

#[test]
fn retention_only_chunks_are_never_offered_for_rendering() -> Result<(), RuntimeError> {
    let mut runtime = runtime_with(StreamingConfig::default())?;
    load_center_neighborhood(&mut runtime)?;
    for coord in runtime.render_ready_meshes() {
        assert!(runtime.demand().render.contains(&coord));
    }
    let summary = runtime.summary();
    assert_eq!(summary.tracked_records, runtime.tracked_count());
    assert_eq!(summary.cpu_resident, runtime.resident_payload_count());
    assert_eq!(summary.resident_payload_bytes, summary.cpu_resident * CHUNK_BYTES);
    Ok(())
}

fn m3c() -> Result<Runtime, RuntimeError> {
    runtime_with(StreamingConfig::m3c_diagnostic())
}

fn lod(runtime: &Runtime, x: i32, y: i32, z: i32) -> Option<LodLevel> {
    runtime.desired_lod(ChunkCoord::new(x, y, z))
}

#[test]
fn lod0_only_profile_never_selects_lod1() -> Result<(), RuntimeError> {
    let mut runtime = runtime_with(StreamingConfig::default())?;
    runtime.set_demand_center(ChunkCoord::new(5, 0, -5))?;
    let summary = runtime.summary();
    assert_eq!(summary.lod0_desired, 27);
    assert_eq!(summary.lod1_desired, 0);
    assert_eq!(runtime.metrics().lod_swaps, 0);
    Ok(())
}

#[test]
fn banded_startup_assigns_levels_deterministically() -> Result<(), RuntimeError> {
    let runtime = m3c()?;
    let summary = runtime.summary();
    assert_eq!(summary.lod0_desired, 27);
    assert_eq!(summary.lod1_desired, 316, "98 band chunks without history plus 218");
    assert_eq!(lod(&runtime, 1, 1, 1), Some(LodLevel::Lod0));
    assert_eq!(lod(&runtime, 2, 0, 0), Some(LodLevel::Lod1));
    assert_eq!(lod(&runtime, 3, 0, 0), Some(LodLevel::Lod1));
    assert_eq!(lod(&runtime, 4, 0, 0), Some(LodLevel::Lod1), "dependency halo starts coarse");
    Ok(())
}

#[test]
fn approach_promotes_only_inside_radius_one() -> Result<(), RuntimeError> {
    let mut runtime = m3c()?;
    assert_eq!(lod(&runtime, 3, 0, 0), Some(LodLevel::Lod1));
    runtime.set_demand_center(ChunkCoord::new(1, 0, 0))?;
    assert_eq!(lod(&runtime, 3, 0, 0), Some(LodLevel::Lod1), "band keeps Lod1");
    runtime.set_demand_center(ChunkCoord::new(2, 0, 0))?;
    assert_eq!(lod(&runtime, 3, 0, 0), Some(LodLevel::Lod0));
    Ok(())
}

#[test]
fn retreat_keeps_lod0_through_the_band() -> Result<(), RuntimeError> {
    let mut runtime = m3c()?;
    runtime.set_demand_center(ChunkCoord::new(2, 0, 0))?;
    assert_eq!(lod(&runtime, 3, 0, 0), Some(LodLevel::Lod0));
    runtime.set_demand_center(ChunkCoord::new(1, 0, 0))?;
    assert_eq!(lod(&runtime, 3, 0, 0), Some(LodLevel::Lod0), "band keeps Lod0");
    runtime.set_demand_center(ChunkCoord::new(0, 0, 0))?;
    assert_eq!(lod(&runtime, 3, 0, 0), Some(LodLevel::Lod1));
    Ok(())
}

#[test]
fn oscillation_across_one_boundary_never_swaps_again() -> Result<(), RuntimeError> {
    let mut runtime = m3c()?;
    runtime.set_demand_center(ChunkCoord::new(1, 0, 0))?;
    runtime.set_demand_center(ChunkCoord::new(0, 0, 0))?;
    let settled = runtime.metrics().lod_swaps;
    assert!(settled > 0, "the first crossing promotes band chunks");
    for _ in 0..4 {
        runtime.set_demand_center(ChunkCoord::new(1, 0, 0))?;
        runtime.set_demand_center(ChunkCoord::new(0, 0, 0))?;
    }
    assert_eq!(runtime.metrics().lod_swaps, settled, "no ping-pong");
    assert_eq!(lod(&runtime, 2, 0, 0), Some(LodLevel::Lod0), "history survives");
    Ok(())
}

#[test]
fn teleport_assigns_levels_by_distance_only() -> Result<(), RuntimeError> {
    let mut runtime = m3c()?;
    runtime.set_demand_center(ChunkCoord::new(40, 0, -40))?;
    assert_eq!(lod(&runtime, 40, 0, -40), Some(LodLevel::Lod0));
    assert_eq!(lod(&runtime, 41, 1, -41), Some(LodLevel::Lod0));
    assert_eq!(lod(&runtime, 42, 0, -40), Some(LodLevel::Lod1), "band without history");
    assert_eq!(lod(&runtime, 43, 0, -40), Some(LodLevel::Lod1));
    assert_eq!(lod(&runtime, 2, 0, 0), None, "old records retired");
    Ok(())
}

#[test]
fn eviction_and_reentry_forget_lod_history() -> Result<(), RuntimeError> {
    let mut runtime = m3c()?;
    runtime.set_demand_center(ChunkCoord::new(1, 0, 0))?;
    runtime.set_demand_center(ChunkCoord::new(0, 0, 0))?;
    let coord = ChunkCoord::new(2, 0, 0);
    assert_eq!(runtime.desired_lod(coord), Some(LodLevel::Lod0));
    let old_token = runtime.request_token(coord);
    runtime.set_demand_center(ChunkCoord::new(40, 0, -40))?;
    for _ in 0..200 {
        runtime.finalize_evictions();
    }
    runtime.set_demand_center(ChunkCoord::new(0, 0, 0))?;
    assert_eq!(runtime.desired_lod(coord), Some(LodLevel::Lod1), "fresh decision");
    assert_ne!(runtime.request_token(coord), old_token);
    Ok(())
}

#[test]
fn old_level_result_is_rejected_and_tokens_survive_a_lod_change() -> Result<(), RuntimeError> {
    let mut runtime = m3c()?;
    load_center_neighborhood(&mut runtime)?;
    let center = ChunkCoord::default();
    let token = runtime.request_token(center);
    let stale = start_meshing(&mut runtime, center)?;
    assert_eq!(stale.lod, LodLevel::Lod0);

    runtime.set_demand_center(ChunkCoord::new(3, 0, 0))?;
    assert_eq!(runtime.desired_lod(center), Some(LodLevel::Lod1));
    assert_eq!(runtime.request_token(center), token, "token untouched");
    let target = runtime.current_mesh_stamp(center).ok_or(RuntimeError::WorkerDisconnected)?;
    assert_eq!(target.center_content_generation, stale.center_content_generation);

    runtime.integrate_mesh(stale, (), 0, 0);
    assert_eq!(runtime.metrics().stale_mesh_results, 1);
    assert_eq!(runtime.metrics().stale_lod_results, 1);
    assert_ne!(runtime.mesh_status(center), Some(MeshStatus::CpuReady));
    Ok(())
}

#[test]
fn neighbor_level_change_invalidates_the_seam() -> Result<(), RuntimeError> {
    let mut runtime = m3c()?;
    load_center_neighborhood(&mut runtime)?;
    let center = ChunkCoord::default();
    let before = runtime.current_mesh_stamp(center).ok_or(RuntimeError::WorkerDisconnected)?;
    assert!(before
        .neighbors
        .iter()
        .all(|stamp| matches!(stamp, NeighborStamp::Resident { seam: SeamContract::Same, .. })));
    runtime.set_demand_center(ChunkCoord::new(-2, 0, 0))?;
    assert_eq!(runtime.desired_lod(center), Some(LodLevel::Lod0), "band keeps Lod0");
    assert_eq!(lod(&runtime, 1, 0, 0), Some(LodLevel::Lod1));
    let after = runtime.current_mesh_stamp(center).ok_or(RuntimeError::WorkerDisconnected)?;
    assert_ne!(before, after);
    assert!(matches!(
        after.neighbors[Face::PositiveX.index()],
        NeighborStamp::Resident { seam: SeamContract::CoarseNeighbor, .. }
    ));
    assert!(after.mesh_generation > before.mesh_generation);
    assert_eq!(runtime.mesh_status(center), Some(MeshStatus::Dirty));
    Ok(())
}

#[test]
fn dependency_only_neighbors_are_content_only() -> Result<(), RuntimeError> {
    let mut runtime = runtime_with(StreamingConfig::default())?;
    let edge = ChunkCoord::new(1, 0, 0);
    let halo = ChunkCoord::new(2, 0, 0);
    force_load(&mut runtime, edge, SourceChunk::Present(Chunk::empty()))?;
    force_load(&mut runtime, halo, SourceChunk::Present(Chunk::empty()))?;
    let stamp = runtime.neighbor_stamp(edge, Face::PositiveX).ok_or(RuntimeError::WorkerDisconnected)?;
    assert!(matches!(stamp, NeighborStamp::Resident { seam: SeamContract::Same, .. }));
    Ok(())
}

fn load_lod1_neighborhood(runtime: &mut Runtime) -> Result<ChunkCoord, RuntimeError> {
    let coarse = ChunkCoord::new(3, 0, 0);
    force_load(runtime, coarse, DiagnosticChunkSource.load(coarse))?;
    for face in faces() {
        let coord = coarse.neighbor(face).ok_or(RuntimeError::WorkerDisconnected)?;
        if runtime.residency_status(coord) != Some(ResidencyStatus::CpuResident) {
            force_load(runtime, coord, DiagnosticChunkSource.load(coord))?;
        }
    }
    Ok(coarse)
}

#[test]
fn scheduler_dispatches_lod0_mesh_then_load_then_lod1_mesh() -> Result<(), RuntimeError> {
    let mut runtime = m3c()?;
    load_center_neighborhood(&mut runtime)?;
    let coarse = load_lod1_neighborhood(&mut runtime)?;
    let center = ChunkCoord::default();
    assert_eq!(runtime.mesh_status(center), Some(MeshStatus::Dirty));
    assert_eq!(runtime.mesh_status(coarse), Some(MeshStatus::Dirty));
    assert_eq!(runtime.desired_lod(coarse), Some(LodLevel::Lod1));
    assert!(runtime.summary().load_queued > 0, "loads are ready too");

    dispatch_one(&mut runtime);
    assert_eq!(runtime.in_flight(), Some(InFlight::Mesh));
    assert_eq!(runtime.mesh_status(center), Some(MeshStatus::Meshing));
    assert_eq!(runtime.mesh_status(coarse), Some(MeshStatus::Dirty));
    runtime.job_finished();

    let loads = runtime.metrics().load_jobs_dispatched;
    dispatch_one(&mut runtime);
    assert_eq!(runtime.in_flight(), Some(InFlight::Load));
    assert_eq!(runtime.metrics().load_jobs_dispatched, loads + 1);
    assert_eq!(runtime.mesh_status(coarse), Some(MeshStatus::Dirty), "Lod1 waits");
    runtime.job_finished();

    Ok(())
}

#[test]
fn load_beats_a_lod1_mesh_when_no_lod0_mesh_is_ready() -> Result<(), RuntimeError> {
    let mut runtime = m3c()?;
    let coarse = load_lod1_neighborhood(&mut runtime)?;
    assert_eq!(runtime.mesh_status(coarse), Some(MeshStatus::Dirty));
    assert_eq!(runtime.mesh_status(ChunkCoord::default()), Some(MeshStatus::WaitingForNeighbors));
    dispatch_one(&mut runtime);
    assert_eq!(runtime.in_flight(), Some(InFlight::Load));
    assert_eq!(runtime.mesh_status(coarse), Some(MeshStatus::Dirty));
    assert_eq!(runtime.metrics().fairness_load_dispatches, 0, "not a fairness event");
    runtime.job_finished();
    Ok(())
}

#[test]
fn neighbor_presentation_change_counts_as_lod_stale() -> Result<(), RuntimeError> {
    let mut runtime = m3c()?;
    load_center_neighborhood(&mut runtime)?;
    let center = ChunkCoord::default();
    let stale = start_meshing(&mut runtime, center)?;
    runtime.set_demand_center(ChunkCoord::new(-2, 0, 0))?;
    assert_eq!(runtime.desired_lod(center), Some(LodLevel::Lod0));
    runtime.integrate_mesh(stale, (), 0, 0);
    assert_eq!(runtime.metrics().stale_mesh_results, 1);
    assert_eq!(runtime.metrics().stale_lod_results, 1);
    Ok(())
}

#[test]
fn a_group_with_one_unready_member_commits_nothing() -> Result<(), RuntimeError> {
    let mut runtime = runtime_with(StreamingConfig {
        render_radius: 0,
        dependency_halo: 1,
        retention_radius: 1,
        hard_resident_cap: 16,
        ..StreamingConfig::default()
    })?;
    let mut pending = None;
    for _ in 0..10_000 {
        poll(&mut runtime, &mut pending)?;
        if runtime.is_idle() {
            break;
        }
    }
    let center = ChunkCoord::default();
    assert_eq!(runtime.mesh_status(center), Some(MeshStatus::CpuReady));
    let neighbor = ChunkCoord::new(1, 0, 0);
    assert_eq!(runtime.mesh_status(neighbor), Some(MeshStatus::NotRequired));
    assert!(!runtime.group_is_ready(&[center, neighbor]));

    assert_eq!(runtime.commit_group(&[center, neighbor]), 0);
    assert_eq!(
        runtime.mesh_status(center),
        Some(MeshStatus::CpuReady),
        "the ready member must not be committed on its own"
    );
    assert!(runtime.committed_mesh(center).is_none());

    assert!(!runtime.group_is_ready(&[]));
    assert!(!runtime.group_is_ready(&[center, center]));
    assert!(!runtime.group_is_ready(&[center, neighbor, center]));

    assert_eq!(runtime.commit_group(&[center]), 1);
    assert!(runtime.committed_mesh(center).is_some());
    assert_eq!(runtime.mesh_status(center), Some(MeshStatus::Committed));
    Ok(())
}

#[test]
fn real_worker_reaches_a_stable_bounded_state() -> Result<(), RuntimeError> {
    let mut runtime = runtime_with(StreamingConfig {
        render_radius: 0,
        dependency_halo: 1,
        retention_radius: 1,
        hard_resident_cap: 16,
        ..StreamingConfig::default()
    })?;
    let mut pending = None;
    for _ in 0..10_000 {
        poll(&mut runtime, &mut pending)?;
        if runtime.is_idle() {
            break;
        }
    }
    assert!(runtime.is_idle());
    assert_eq!(runtime.resident_payload_count(), 7);
    assert_eq!(runtime.reserved_load_count(), 0);
    assert_eq!(runtime.mesh_status(ChunkCoord::default()), Some(MeshStatus::CpuReady));
    Ok(())
}

#[test]
fn m3c_profile_reaches_idle_with_meshes_at_both_levels() -> Result<(), RuntimeError> {
    let mut runtime = m3c()?;
    let mut pending = None;
    for _ in 0..200_000 {
        poll(&mut runtime, &mut pending)?;
        if runtime.is_idle() {
            break;
        }
    }
    assert!(runtime.is_idle());
    let summary = runtime.summary();
    assert_eq!(summary.lod0_desired + summary.lod1_desired, 343);
    assert!(summary.lod0_ready > 0);
    assert!(summary.lod1_ready > 0);
    assert_eq!(summary.lod0_ready + summary.lod1_ready, summary.mesh_ready);
    assert_eq!(runtime.metrics().stale_lod_results, 0);
    assert!(runtime.resident_payload_count() <= 810);
    let metrics = runtime.metrics();
    assert_eq!(metrics.snapshot_build.count, metrics.mesh_jobs_dispatched);
    assert_eq!(
        metrics.worker_mesh_lod0.count + metrics.worker_mesh_lod1.count,
        metrics.accepted_mesh_results + metrics.stale_mesh_results
    );
    Ok(())
}

#[test]
fn a_snapshot_plan_follows_the_seam_contracts_of_its_stamp() -> Result<(), RuntimeError> {
    let mut runtime = m3c()?;
    load_center_neighborhood(&mut runtime)?;
    let center = ChunkCoord::default();
    runtime.set_demand_center(ChunkCoord::new(-2, 0, 0))?;
    let stamp = runtime.current_mesh_stamp(center).ok_or(RuntimeError::WorkerDisconnected)?;
    let plan = runtime.snapshot_plan(&stamp).ok_or(RuntimeError::WorkerDisconnected)?;
    assert_eq!(plan[Face::PositiveX.index()], SlabSource::CoarseOccupancy(ChunkCoord::new(1, 0, 0)));
    assert_eq!(plan[Face::NegativeX.index()], SlabSource::FromNeighbor(ChunkCoord::new(-1, 0, 0)));
    runtime.invalidate_mesh(center, InvalidationCause::Data)?;
    assert_eq!(runtime.snapshot_plan(&stamp), None, "a stamp that is no longer the target plans nothing");
    Ok(())
}

#[test]
fn a_load_the_worker_refuses_waits_in_its_queue() -> Result<(), RuntimeError> {
    let mut runtime = runtime_with(StreamingConfig::default())?;
    let Job::Load { entry } = runtime.next_job() else {
        panic!("a fresh runtime has a load ready");
    };
    assert_eq!(entry.coord, ChunkCoord::default(), "the nearest load goes first");
    runtime.load_refused(entry);
    assert_eq!(runtime.residency_status(entry.coord), Some(ResidencyStatus::LoadQueued));
    assert_eq!(runtime.reserved_load_count(), 0);
    let Job::Load { entry: again } = runtime.next_job() else {
        panic!("the refused load is still ready");
    };
    assert_eq!(again, entry);
    Ok(())
}

#[test]
fn a_failed_swap_commits_nothing_and_a_successful_one_commits_the_group() -> Result<(), RuntimeError> {
    let mut runtime = runtime_with(StreamingConfig {
        render_radius: 0,
        dependency_halo: 1,
        retention_radius: 1,
        hard_resident_cap: 16,
        ..StreamingConfig::default()
    })?;
    let mut pending = None;
    for _ in 0..10_000 {
        poll(&mut runtime, &mut pending)?;
        if runtime.is_idle() {
            break;
        }
    }
    let center = ChunkCoord::default();
    assert!(runtime.group_is_ready(&[center]));
    assert_eq!(runtime.commit_group_after_swap(&[center], Err("swap refused")), Err("swap refused"));
    assert_eq!(runtime.mesh_status(center), Some(MeshStatus::CpuReady));
    assert!(runtime.committed_mesh(center).is_none());
    assert_eq!(runtime.commit_group_after_swap::<&str>(&[center], Ok(())), Ok(1));
    assert_eq!(runtime.mesh_status(center), Some(MeshStatus::Committed));
    Ok(())
}
