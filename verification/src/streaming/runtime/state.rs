//! The streaming runtime: bounded chunk residency and the bookkeeping of
//! detached meshing.
//!
//! The runtime owns every tracked record and decides what happens next; the
//! caller owns the worker. It asks [`StreamingRuntime::next_job`] what to
//! dispatch, reports whether the worker took it, and hands every result back
//! through [`StreamingRuntime::integrate_load`] or
//! [`StreamingRuntime::integrate_mesh`]. Meshes are opaque payloads `M`.

use vstd::prelude::*;

use crate::streaming::demand::{
    lemma_coord_set_len,
    coord_set, lemma_demand_sets_nest, spec_around, spec_select, spec_validate, DemandError,
    DemandSets, StreamingConfig,
};
use crate::streaming::runtime::record::{
    coord_lt, holds_payload, holds_payload_exec, mesh_status_of, residency_status_of,
    spec_mesh_status, spec_residency_status, ChunkRecord, CommittedMesh, LoadQueueEntry, MeshState,
    MeshQueueEntry, ResidencyState,
};
use crate::streaming::runtime::{
    choose_dispatch, spec_choose_dispatch, Dispatch, axis_distance, cause_is_presentation_only, chebyshev_distance, spec_axis_gap, spec_chebyshev,
    InvalidationCause, MeshStatus, ResidencyStatus, ResidencySummary,
    spec_timing_recorded, RuntimeMetrics, TrackedState,
};
use crate::streaming::types::{
    spec_differs_only_by_presentation, spec_seam, LodLevel, MeshStamp, NeighborPresentation,
    NeighborStamp, RequestToken, SeamContract,
};
use crate::streaming::runtime::record::{
    coord_less, load_precedes, mesh_precedes, pop_load, pop_mesh, same_stamp,
};
use crate::streaming::source::SourceChunk;
use crate::voxel::{face_index, face_offset, fits_i32, Chunk, ChunkCoord, Face, CHUNK_BYTES};

verus! {

/// Why the runtime cannot go on.
#[derive(Clone, Copy, Debug, PartialEq, Eq)]
pub enum RuntimeError {
    Demand(DemandError),
    WorkerDisconnected,
    RequestTokenExhausted,
    GenerationExhausted { coord: ChunkCoord, kind: &'static str },
}

/// Which kind of job the worker holds.
#[derive(Clone, Copy, Debug, PartialEq, Eq, Structural)]
pub enum InFlight {
    Load,
    Mesh,
}

/// A per-record property the runtime counts.
#[derive(Clone, Copy, Debug, PartialEq, Eq, Structural)]
pub enum Tally {
    /// The record owns a chunk.
    Payload,
    EvictPending,
    /// A replacement mesh is ready.
    Ready,
    /// A committed mesh exists.
    Committed,
}

pub open spec fn tallied<M>(tally: Tally, record: ChunkRecord<M>) -> bool {
    match tally {
        Tally::Payload => holds_payload(record.residency),
        Tally::EvictPending => record.residency is EvictPending,
        Tally::Ready => record.mesh is CpuReady,
        Tally::Committed => record.committed is Some,
    }
}

/// How many records have a property.
pub open spec fn count_records<M>(records: Seq<ChunkRecord<M>>, tally: Tally) -> nat
    decreases records.len(),
{
    if records.len() == 0 {
        0
    } else {
        count_records(records.drop_last(), tally) + if tallied(tally, records.last()) {
            1nat
        } else {
            0nat
        }
    }
}

/// Records are held in ascending coordinate order, so no coordinate is
/// tracked twice.
pub open spec fn records_sorted<M>(records: Seq<ChunkRecord<M>>) -> bool {
    forall|i: int, j: int|
        0 <= i < j < records.len() ==> coord_lt(#[trigger] records[i].coord, #[trigger] records[j].coord)
}

pub open spec fn has_coord<M>(records: Seq<ChunkRecord<M>>, coord: ChunkCoord) -> bool {
    exists|i: int| 0 <= i < records.len() && #[trigger] records[i].coord == coord
}

/// The record tracked for a coordinate, if any.
pub open spec fn spec_record<M>(records: Seq<ChunkRecord<M>>, coord: ChunkCoord) -> Option<
    ChunkRecord<M>,
> {
    if has_coord(records, coord) {
        Some(records[choose|i: int| 0 <= i < records.len() && #[trigger] records[i].coord == coord])
    } else {
        None
    }
}

/// Two record sequences that agree on everything but meshes: coordinates,
/// tokens, residency and levels.
pub open spec fn same_residency<M>(a: Seq<ChunkRecord<M>>, b: Seq<ChunkRecord<M>>) -> bool {
    &&& a.len() == b.len()
    &&& forall|i: int|
        0 <= i < a.len() ==> {
            &&& (#[trigger] a[i]).coord == b[i].coord
            &&& a[i].token == b[i].token
            &&& a[i].residency == b[i].residency
            &&& a[i].lod == b[i].lod
        }
}

pub proof fn lemma_record_at<M>(records: Seq<ChunkRecord<M>>, i: int)
    requires
        records_sorted(records),
        0 <= i < records.len(),
    ensures
        spec_record(records, records[i].coord) == Some(records[i]),
{
    let coord = records[i].coord;
    assert(has_coord(records, coord));
    let k = choose|k: int| 0 <= k < records.len() && #[trigger] records[k].coord == coord;
    if k < i {
        assert(coord_lt(records[k].coord, records[i].coord));
    } else if k > i {
        assert(coord_lt(records[i].coord, records[k].coord));
    }
}

/// Replacing a record by one for the same coordinate keeps the order, and
/// changes what is tracked for that coordinate only.
pub proof fn lemma_record_update<M>(records: Seq<ChunkRecord<M>>, i: int, record: ChunkRecord<M>)
    requires
        records_sorted(records),
        0 <= i < records.len(),
        record.coord == records[i].coord,
    ensures
        records_sorted(records.update(i, record)),
        spec_record(records.update(i, record), record.coord) == Some(record),
        forall|other: ChunkCoord|
            other != record.coord ==> #[trigger] spec_record(records.update(i, record), other)
                == spec_record(records, other),
{
    let updated = records.update(i, record);
    assert forall|a: int, b: int| 0 <= a < b < updated.len() implies coord_lt(
        #[trigger] updated[a].coord,
        #[trigger] updated[b].coord,
    ) by {
        assert(coord_lt(records[a].coord, records[b].coord));
    }
    lemma_record_at(updated, i);
    assert forall|other: ChunkCoord| other != record.coord implies #[trigger] spec_record(
        updated,
        other,
    ) == spec_record(records, other) by {
        if has_coord(records, other) {
            let k = choose|k: int| 0 <= k < records.len() && #[trigger] records[k].coord == other;
            lemma_record_at(records, k);
            lemma_record_at(updated, k);
        } else {
            assert forall|k: int| 0 <= k < updated.len() implies #[trigger] updated[k].coord != other by {
                if k != i {
                    assert(records[k].coord != other);
                }
            }
        }
    }
}

/// Two record sequences that agree on what stamps read: coordinates, tokens,
/// residency, levels and mesh generations.
pub open spec fn same_stamp_inputs<M>(a: Seq<ChunkRecord<M>>, b: Seq<ChunkRecord<M>>) -> bool {
    &&& same_residency(a, b)
    &&& forall|i: int| 0 <= i < a.len() ==> (#[trigger] a[i]).mesh_generation == b[i].mesh_generation
}

proof fn lemma_same_lookup<M>(a: Seq<ChunkRecord<M>>, b: Seq<ChunkRecord<M>>, coord: ChunkCoord)
    requires
        records_sorted(a),
        same_stamp_inputs(a, b),
    ensures
        spec_record(a, coord) is Some <==> spec_record(b, coord) is Some,
        spec_record(a, coord) is Some ==> {
            let (ra, rb) = (spec_record(a, coord)->0, spec_record(b, coord)->0);
            &&& ra.coord == rb.coord
            &&& ra.token == rb.token
            &&& ra.residency == rb.residency
            &&& ra.lod == rb.lod
            &&& ra.mesh_generation == rb.mesh_generation
        },
{
    assert(records_sorted(b)) by {
        assert forall|i: int, j: int| 0 <= i < j < b.len() implies coord_lt(
            #[trigger] b[i].coord,
            #[trigger] b[j].coord,
        ) by {
            assert(coord_lt(a[i].coord, a[j].coord));
        }
    }
    if has_coord(a, coord) {
        let k = choose|k: int| 0 <= k < a.len() && #[trigger] a[k].coord == coord;
        lemma_record_at(a, k);
        assert(b[k].coord == coord);
        lemma_record_at(b, k);
    } else {
        assert forall|k: int| 0 <= k < b.len() implies #[trigger] b[k].coord != coord by {
            assert(a[k].coord != coord);
        }
    }
}

/// Stamps read only what [`same_stamp_inputs`] keeps.
pub proof fn lemma_target_frame<M>(
    a: Seq<ChunkRecord<M>>,
    b: Seq<ChunkRecord<M>>,
    render: Set<ChunkCoord>,
    coord: ChunkCoord,
    target: Option<MeshStamp>,
)
    requires
        records_sorted(a),
        same_stamp_inputs(a, b),
    ensures
        spec_target(a, render, coord, target) == spec_target(b, render, coord, target),
        forall|face: Face|
            #[trigger] spec_neighbor_stamp(a, render, coord, face) == spec_neighbor_stamp(
                b,
                render,
                coord,
                face,
            ),
{
    lemma_same_lookup(a, b, coord);
    assert forall|face: Face| #[trigger] spec_neighbor_stamp(a, render, coord, face) == spec_neighbor_stamp(
        b,
        render,
        coord,
        face,
    ) by {
        match spec_step(coord, face) {
            Some(next) => lemma_same_lookup(a, b, next),
            None => {},
        }
    }
    assert forall|k: int|
        #![trigger spec_neighbor_stamp(a, render, coord, spec_face_at(k))]
        #![trigger spec_neighbor_stamp(b, render, coord, spec_face_at(k))]
        0 <= k < 6 implies spec_neighbor_stamp(a, render, coord, spec_face_at(k))
        == spec_neighbor_stamp(b, render, coord, spec_face_at(k)) by {}
    if spec_record(a, coord) is Some {
        let ra = spec_record(a, coord)->0;
        let rb = spec_record(b, coord)->0;
        assert(ra.residency == rb.residency);
        let all_a = forall|k: int|
            0 <= k < 6 ==> (#[trigger] spec_neighbor_stamp(a, render, coord, spec_face_at(k))) is Some;
        let all_b = forall|k: int|
            0 <= k < 6 ==> (#[trigger] spec_neighbor_stamp(b, render, coord, spec_face_at(k))) is Some;
        assert(all_a == all_b);
        if let Some(stamp) = target {
            let na = forall|k: int|
                0 <= k < 6 ==> Some(#[trigger] stamp.neighbors[k]) == spec_neighbor_stamp(
                    a,
                    render,
                    coord,
                    spec_face_at(k),
                );
            let nb = forall|k: int|
                0 <= k < 6 ==> Some(#[trigger] stamp.neighbors[k]) == spec_neighbor_stamp(
                    b,
                    render,
                    coord,
                    spec_face_at(k),
                );
            assert(na == nb);
        }
    }
}

/// Removing a record keeps the order and forgets that coordinate only.
pub proof fn lemma_record_remove<M>(records: Seq<ChunkRecord<M>>, i: int)
    requires
        records_sorted(records),
        0 <= i < records.len(),
    ensures
        records_sorted(records.remove(i)),
        spec_record(records.remove(i), records[i].coord) is None,
        forall|other: ChunkCoord|
            other != records[i].coord ==> #[trigger] spec_record(records.remove(i), other)
                == spec_record(records, other),
{
    let removed = records.remove(i);
    let coord = records[i].coord;
    assert forall|a: int, b: int| 0 <= a < b < removed.len() implies coord_lt(
        #[trigger] removed[a].coord,
        #[trigger] removed[b].coord,
    ) by {
        if b < i {
            assert(coord_lt(records[a].coord, records[b].coord));
        } else if a < i {
            assert(coord_lt(records[a].coord, records[b + 1].coord));
        } else {
            assert(coord_lt(records[a + 1].coord, records[b + 1].coord));
        }
    }
    assert forall|k: int| 0 <= k < removed.len() implies #[trigger] removed[k].coord != coord by {
        if k < i {
            assert(coord_lt(records[k].coord, records[i].coord));
        } else {
            assert(coord_lt(records[i].coord, records[k + 1].coord));
        }
    }
    assert forall|other: ChunkCoord| other != coord implies #[trigger] spec_record(removed, other)
        == spec_record(records, other) by {
        if has_coord(records, other) {
            let k = choose|k: int| 0 <= k < records.len() && #[trigger] records[k].coord == other;
            lemma_record_at(records, k);
            if k < i {
                lemma_record_at(removed, k);
            } else {
                assert(k != i);
                assert(removed[k - 1] == records[k]);
                lemma_record_at(removed, k - 1);
            }
        } else {
            assert forall|k: int| 0 <= k < removed.len() implies #[trigger] removed[k].coord != other by {
                if k < i {
                    assert(records[k].coord != other);
                } else {
                    assert(records[k + 1].coord != other);
                }
            }
        }
    }
}

/// Whether `position` is where a record for `coord` belongs.
pub open spec fn insertion_point<M>(records: Seq<ChunkRecord<M>>, coord: ChunkCoord, position: int) -> bool {
    &&& 0 <= position <= records.len()
    &&& forall|k: int| 0 <= k < position ==> coord_lt(#[trigger] records[k].coord, coord)
    &&& forall|k: int| position <= k < records.len() ==> coord_lt(coord, #[trigger] records[k].coord)
}

/// Inserting a record where it belongs keeps the order and adds that
/// coordinate only.
pub proof fn lemma_record_insert<M>(records: Seq<ChunkRecord<M>>, position: int, record: ChunkRecord<M>)
    requires
        records_sorted(records),
        insertion_point(records, record.coord, position),
    ensures
        records_sorted(records.insert(position, record)),
        spec_record(records.insert(position, record), record.coord) == Some(record),
        forall|other: ChunkCoord|
            other != record.coord ==> #[trigger] spec_record(records.insert(position, record), other)
                == spec_record(records, other),
{
    let inserted = records.insert(position, record);
    assert forall|a: int, b: int| 0 <= a < b < inserted.len() implies coord_lt(
        #[trigger] inserted[a].coord,
        #[trigger] inserted[b].coord,
    ) by {
        if b < position {
            assert(coord_lt(records[a].coord, records[b].coord));
        } else if b == position {
            assert(coord_lt(records[a].coord, record.coord));
        } else if a < position {
            assert(coord_lt(records[a].coord, record.coord));
            assert(coord_lt(record.coord, records[b - 1].coord));
        } else if a == position {
            assert(coord_lt(record.coord, records[b - 1].coord));
        } else {
            assert(coord_lt(records[a - 1].coord, records[b - 1].coord));
        }
    }
    lemma_record_at(inserted, position);
    assert forall|other: ChunkCoord| other != record.coord implies #[trigger] spec_record(
        inserted,
        other,
    ) == spec_record(records, other) by {
        if has_coord(records, other) {
            let k = choose|k: int| 0 <= k < records.len() && #[trigger] records[k].coord == other;
            lemma_record_at(records, k);
            if k < position {
                lemma_record_at(inserted, k);
            } else {
                assert(inserted[k + 1] == records[k]);
                lemma_record_at(inserted, k + 1);
            }
        } else {
            assert forall|k: int| 0 <= k < inserted.len() implies #[trigger] inserted[k].coord
                != other by {
                if k < position {
                    assert(records[k].coord != other);
                } else if k > position {
                    assert(records[k - 1].coord != other);
                }
            }
        }
    }
}

/// Records that agree on residency agree on every lookup of it.
pub proof fn lemma_residency_lookup<M>(a: Seq<ChunkRecord<M>>, b: Seq<ChunkRecord<M>>)
    requires
        records_sorted(a),
        same_residency(a, b),
    ensures
        records_sorted(b),
        forall|coord: ChunkCoord|
            #![trigger spec_record(a, coord)]
            #![trigger spec_record(b, coord)]
            (spec_record(a, coord) is Some <==> spec_record(b, coord) is Some) && (spec_record(
                a,
                coord,
            ) is Some ==> same_standing(a, b, coord)),
{
    assert forall|i: int, j: int| 0 <= i < j < b.len() implies coord_lt(
        #[trigger] b[i].coord,
        #[trigger] b[j].coord,
    ) by {
        assert(coord_lt(a[i].coord, a[j].coord));
    }
    assert forall|coord: ChunkCoord|
        #![trigger spec_record(a, coord)]
        #![trigger spec_record(b, coord)]
        (spec_record(a, coord) is Some <==> spec_record(b, coord) is Some) && (spec_record(
            a,
            coord,
        ) is Some ==> same_standing(a, b, coord)) by {
        if has_coord(a, coord) {
            let k = choose|k: int| 0 <= k < a.len() && #[trigger] a[k].coord == coord;
            lemma_record_at(a, k);
            assert(b[k].coord == coord);
            lemma_record_at(b, k);
        } else {
            assert forall|k: int| 0 <= k < b.len() implies #[trigger] b[k].coord != coord by {
                assert(a[k].coord != coord);
            }
        }
    }
}

/// Whether a record leaves when the demand moves: it lies outside the
/// retention set, or it only waits for a load no dependency needs any more.
pub open spec fn spec_leaves<M>(
    record: ChunkRecord<M>,
    dependency: Set<ChunkCoord>,
    retention: Set<ChunkCoord>,
) -> bool {
    !retention.contains(record.coord) || (!dependency.contains(record.coord)
        && record.residency is LoadQueued)
}

/// A coordinate has at most one target stamp.
pub proof fn lemma_target_unique<M>(
    records: Seq<ChunkRecord<M>>,
    render: Set<ChunkCoord>,
    coord: ChunkCoord,
    a: Option<MeshStamp>,
    b: Option<MeshStamp>,
)
    requires
        spec_target(records, render, coord, a),
        spec_target(records, render, coord, b),
    ensures
        a == b,
{
    if let (Some(x), Some(y)) = (a, b) {
        assert forall|k: int| 0 <= k < 6 implies x.neighbors[k] == y.neighbors[k] by {
            assert(Some(x.neighbors[k]) == spec_neighbor_stamp(records, render, coord, spec_face_at(k)));
            assert(Some(y.neighbors[k]) == spec_neighbor_stamp(records, render, coord, spec_face_at(k)));
        }
        assert(x.neighbors =~= y.neighbors);
    }
}

/// Stepping across a face and back across the opposite one returns.
pub proof fn lemma_step_back(a: ChunkCoord, k: int, b: ChunkCoord)
    requires
        0 <= k < 6,
        spec_step(a, spec_face_at(k)) == Some(b),
    ensures
        spec_step(b, spec_face_at(opposite_index(k))) == Some(a),
        0 <= opposite_index(k) < 6,
        opposite_index(opposite_index(k)) == k,
{
}

/// Edges go both ways.
pub proof fn lemma_edge_symmetric<M>(
    records: Seq<ChunkRecord<M>>,
    render: Set<ChunkCoord>,
    a: ChunkCoord,
    b: ChunkCoord,
)
    requires
        spec_edge(records, render, a, b),
    ensures
        spec_edge(records, render, b, a),
{
    let k = choose|k: int|
        0 <= k < 6 && #[trigger] spec_step(a, spec_face_at(k)) == Some(b) && (spec_face_changes(
            records,
            render,
            a,
            k,
        ) || spec_face_changes(records, render, b, opposite_index(k)));
    lemma_step_back(a, k, b);
    let o = opposite_index(k);
    assert(spec_step(b, spec_face_at(o)) == Some(a));
    assert(spec_face_changes(records, render, b, o) || spec_face_changes(
        records,
        render,
        a,
        opposite_index(o),
    ));
}

/// A sequence without repeats that lies within another is no longer.
pub proof fn lemma_unique_within(a: Seq<ChunkCoord>, b: Seq<ChunkCoord>)
    requires
        a.no_duplicates(),
        forall|c: ChunkCoord| #[trigger] a.contains(c) ==> b.contains(c),
    ensures
        a.len() <= b.len(),
{
    a.unique_seq_to_set();
    b.lemma_cardinality_of_set();
    vstd::seq_lib::seq_to_set_is_finite(b);
    assert(a.to_set().subset_of(b.to_set())) by {
        assert forall|c: ChunkCoord| a.to_set().contains(c) implies b.to_set().contains(c) by {
            assert(a.contains(c));
        }
    }
    vstd::set_lib::lemma_len_subset(a.to_set(), b.to_set());
}

proof fn lemma_count_step<M>(records: Seq<ChunkRecord<M>>, tally: Tally, i: int)
    requires
        0 <= i < records.len(),
    ensures
        count_records(records.take(i + 1), tally) == count_records(records.take(i), tally) + if tallied(
            tally,
            records[i],
        ) {
            1nat
        } else {
            0nat
        },
{
    assert(records.take(i + 1).drop_last() =~= records.take(i));
}

proof fn lemma_count_update<M>(records: Seq<ChunkRecord<M>>, tally: Tally, i: int, record: ChunkRecord<M>)
    requires
        0 <= i < records.len(),
    ensures
        count_records(records.update(i, record), tally) + (if tallied(tally, records[i]) {
            1nat
        } else {
            0nat
        }) == count_records(records, tally) + (if tallied(tally, record) {
            1nat
        } else {
            0nat
        }),
    decreases records.len(),
{
    let updated = records.update(i, record);
    if i == records.len() - 1 {
        assert(updated.drop_last() =~= records.drop_last());
    } else {
        assert(updated.drop_last() =~= records.drop_last().update(i, record));
        lemma_count_update(records.drop_last(), tally, i, record);
    }
}

proof fn lemma_count_remove<M>(records: Seq<ChunkRecord<M>>, tally: Tally, i: int)
    requires
        0 <= i < records.len(),
    ensures
        count_records(records.remove(i), tally) + (if tallied(tally, records[i]) {
            1nat
        } else {
            0nat
        }) == count_records(records, tally),
    decreases records.len(),
{
    let removed = records.remove(i);
    if i == records.len() - 1 {
        assert(removed =~= records.drop_last());
    } else {
        assert(removed.drop_last() =~= records.drop_last().remove(i));
        lemma_count_remove(records.drop_last(), tally, i);
    }
}

proof fn lemma_count_insert<M>(records: Seq<ChunkRecord<M>>, tally: Tally, i: int, record: ChunkRecord<M>)
    requires
        0 <= i <= records.len(),
    ensures
        count_records(records.insert(i, record), tally) == count_records(records, tally) + (if tallied(
            tally,
            record,
        ) {
            1nat
        } else {
            0nat
        }),
    decreases records.len(),
{
    let inserted = records.insert(i, record);
    if i == records.len() {
        assert(inserted.drop_last() =~= records);
    } else {
        assert(inserted.drop_last() =~= records.drop_last().insert(i, record));
        lemma_count_insert(records.drop_last(), tally, i, record);
    }
}

proof fn lemma_count_same_residency<M>(a: Seq<ChunkRecord<M>>, b: Seq<ChunkRecord<M>>)
    requires
        same_residency(a, b),
    ensures
        count_records(a, Tally::Payload) == count_records(b, Tally::Payload),
        count_records(a, Tally::EvictPending) == count_records(b, Tally::EvictPending),
    decreases a.len(),
{
    if a.len() > 0 {
        assert(same_residency(a.drop_last(), b.drop_last()));
        lemma_count_same_residency(a.drop_last(), b.drop_last());
    }
}

/// Whether a token is waiting in a reservation list.
fn token_reserved(reserved: &Vec<RequestToken>, token: RequestToken) -> (found: Option<usize>)
    ensures
        match found {
            Some(i) => i < reserved@.len() && reserved@[i as int] == token,
            None => !reserved@.contains(token),
        },
{
    let mut i: usize = 0;
    while i < reserved.len()
        invariant
            i <= reserved@.len(),
            forall|k: int| 0 <= k < i ==> reserved@[k] != token,
        decreases reserved@.len() - i,
    {
        if reserved[i] == token {
            return Some(i);
        }
        i = i + 1;
    }
    None
}

/// Whether a coordinate list holds a coordinate.
pub fn holds_coord(coords: &Vec<ChunkCoord>, coord: ChunkCoord) -> (found: bool)
    ensures
        found == coords@.contains(coord),
{
    let mut i: usize = 0;
    while i < coords.len()
        invariant
            i <= coords@.len(),
            forall|k: int| 0 <= k < i ==> coords@[k] != coord,
        decreases coords@.len() - i,
    {
        if coords[i] == coord {
            proof {
                assert(coords@[i as int] == coord);
            }
            return true;
        }
        i = i + 1;
    }
    false
}

/// The coordinate one step across a face, if it fits the coordinate range.
pub open spec fn spec_step(coord: ChunkCoord, face: Face) -> Option<ChunkCoord> {
    let (dx, dy, dz) = face_offset(face);
    let (x, y, z) = (coord.x + dx, coord.y + dy, coord.z + dz);
    if fits_i32(x) && fits_i32(y) && fits_i32(z) {
        Some(ChunkCoord { x: x as i32, y: y as i32, z: z as i32 })
    } else {
        None
    }
}

/// The face at a position of the `ALL` order.
pub open spec fn spec_face_at(index: int) -> Face {
    if index == 0 {
        Face::PositiveX
    } else if index == 1 {
        Face::NegativeX
    } else if index == 2 {
        Face::PositiveY
    } else if index == 3 {
        Face::NegativeY
    } else if index == 4 {
        Face::PositiveZ
    } else {
        Face::NegativeZ
    }
}

/// Whether `other` is the neighbor of `coord` across one of the first `k`
/// faces of the `ALL` order.
pub open spec fn spec_neighbor_before(coord: ChunkCoord, other: ChunkCoord, k: int) -> bool {
    exists|j: int| 0 <= j < k && #[trigger] spec_step(coord, spec_face_at(j)) == Some(other)
}

/// A record after exactly one invalidation for `cause`: absent stays absent,
/// and a present record becomes the invalidated record for some target of
/// its own level.
#[verifier::opaque]
pub open spec fn spec_invalidated_once<M>(
    before: Option<ChunkRecord<M>>,
    after: Option<ChunkRecord<M>>,
    cause: InvalidationCause,
    member: bool,
) -> bool {
    match before {
        None => after is None,
        Some(record) => exists|target: Option<MeshStamp>|
            (target is None || target->0.lod == record.lod) && after == Some(
                #[trigger] spec_invalidated(record, cause, member, target),
            ),
    }
}

/// After a mesh invalidation around `coord` for `cause`: the record of
/// `coord`, which stood as `centre`, and the record of every face neighbor
/// were each invalidated once, and no other record changed.
pub open spec fn spec_invalidated_around<M>(
    before: &StreamingRuntime<M>,
    centre: Option<ChunkRecord<M>>,
    after: &StreamingRuntime<M>,
    coord: ChunkCoord,
    cause: InvalidationCause,
) -> bool {
    &&& spec_invalidated_once(centre, after.record_of(coord), cause, before.spec_render().contains(coord))
    &&& forall|other: ChunkCoord|
        #[trigger] spec_neighbor_before(coord, other, 6) ==> spec_invalidated_once(
            before.record_of(other),
            after.record_of(other),
            cause,
            before.spec_render().contains(other),
        )
    &&& forall|other: ChunkCoord|
        other != coord && !spec_neighbor_before(coord, other, 6) ==> #[trigger] after.record_of(other)
            == before.record_of(other)
}

/// Whether an invalidation around `coord` can go through: no record it
/// touches, `centre` standing for the record of `coord`, has an exhausted
/// mesh generation.
pub open spec fn spec_mesh_invalidable<M>(
    before: &StreamingRuntime<M>,
    centre: Option<ChunkRecord<M>>,
    coord: ChunkCoord,
) -> bool {
    &&& (centre is Some ==> centre->0.mesh_generation < u64::MAX)
    &&& forall|other: ChunkCoord|
        #[trigger] spec_neighbor_before(coord, other, 6) && before.record_of(other) is Some
            ==> before.record_of(other)->0.mesh_generation < u64::MAX
}

/// A coordinate is never its own face neighbor.
proof fn lemma_not_own_neighbor(coord: ChunkCoord)
    ensures
        !spec_neighbor_before(coord, coord, 6),
{
    if spec_neighbor_before(coord, coord, 6) {
        let j = choose|j: int| 0 <= j < 6 && #[trigger] spec_step(coord, spec_face_at(j)) == Some(coord);
        assert(spec_step(coord, spec_face_at(j)) == Some(coord));
    }
}

/// A record whose mesh holds nothing of a level it no longer has: no build
/// in flight and no result waiting, and any stamp it names, the one to build
/// or the committed one it keeps drawing, is of the record's own level.
pub open spec fn spec_mesh_settled<M>(record: Option<ChunkRecord<M>>) -> bool {
    match record {
        None => true,
        Some(r) => match r.mesh {
            MeshState::NotRequired => true,
            MeshState::WaitingForNeighbors => true,
            MeshState::Dirty(stamp) => stamp.lod == r.lod,
            MeshState::Committed => r.committed is Some && r.committed->0.stamp.lod == r.lod,
            MeshState::Meshing(_) => false,
            MeshState::CpuReady { .. } => false,
        },
    }
}

/// A record just invalidated is settled at its level.
proof fn lemma_invalidated_is_settled<M>(
    before: Option<ChunkRecord<M>>,
    after: Option<ChunkRecord<M>>,
    cause: InvalidationCause,
    member: bool,
)
    requires
        spec_invalidated_once(before, after, cause, member),
    ensures
        spec_mesh_settled(after),
{
    reveal(spec_invalidated_once);
    match before {
        None => {},
        Some(record) => {
            let target = choose|target: Option<MeshStamp>|
                (target is None || target->0.lod == record.lod) && after == Some(
                    #[trigger] spec_invalidated(record, cause, member, target),
                );
            let r = spec_invalidated(record, cause, member, target);
            assert(after == Some(r));
            assert(r.lod == record.lod);
            match r.mesh {
                MeshState::Committed => {
                    let stamp = target->0;
                    assert(spec_geometry_key(record.committed->0.stamp) == spec_geometry_key(stamp));
                    assert(spec_geometry_key(record.committed->0.stamp).lod == record.committed->0.stamp.lod);
                },
                _ => {},
            }
        },
    }
}

/// Whether a record's mesh agrees with render membership: a record outside
/// the render set draws nothing and expects nothing, and a record inside it
/// whose content is resident or on its way expects a mesh.
pub open spec fn spec_membership_settled<M>(record: ChunkRecord<M>, render: Set<ChunkCoord>) -> bool {
    &&& !render.contains(record.coord) ==> record.mesh is NotRequired
    &&& render.contains(record.coord) && (record.residency is CpuResident || record.residency is LoadQueued
        || record.residency is Loading) ==> !(record.mesh is NotRequired)
}

/// Whether re-selecting the level of a record standing at `lod` changes it.
pub open spec fn spec_lod_changes(config: StreamingConfig, center: ChunkCoord, coord: ChunkCoord, lod: LodLevel) -> bool {
    spec_lod_at(config, center, coord, Some(lod)) != lod
}

/// A membership invalidation leaves a record agreeing with membership.
proof fn lemma_membership_invalidated<M>(
    record: ChunkRecord<M>,
    after: Option<ChunkRecord<M>>,
    render: Set<ChunkCoord>,
)
    requires
        spec_invalidated_once(Some(record), after, InvalidationCause::Membership, render.contains(record.coord)),
    ensures
        after is Some,
        spec_membership_settled(after->0, render),
        after->0.coord == record.coord,
        after->0.residency == record.residency,
        after->0.lod == record.lod,
        after->0.token == record.token,
{
    reveal(spec_invalidated_once);
    let member = render.contains(record.coord);
    let target = choose|target: Option<MeshStamp>|
        (target is None || target->0.lod == record.lod) && after == Some(
            #[trigger] spec_invalidated(record, InvalidationCause::Membership, member, target),
        );
    assert(after == Some(spec_invalidated(record, InvalidationCause::Membership, member, target)));
}

/// The metrics after one mesh invalidation: a committed mesh that was kept
/// counts as retained, one that was dropped counts as dropped.
pub open spec fn spec_invalidation_metrics<M>(
    metrics: RuntimeMetrics,
    before: Option<ChunkRecord<M>>,
    after: Option<ChunkRecord<M>>,
    done: bool,
) -> RuntimeMetrics {
    if done && before is Some && before->0.committed is Some {
        if after is Some && after->0.committed is Some {
            RuntimeMetrics {
                committed_retained: vstd::wrapping::u64_specs::wrapping_add(metrics.committed_retained, 1),
                ..metrics
            }
        } else {
            RuntimeMetrics {
                committed_dropped: vstd::wrapping::u64_specs::wrapping_add(metrics.committed_dropped, 1),
                ..metrics
            }
        }
    } else {
        metrics
    }
}

/// Whether no record's mesh generation passes `limit`.
pub open spec fn spec_gens_within<M>(records: Seq<ChunkRecord<M>>, limit: int) -> bool {
    forall|c: ChunkCoord|
        (#[trigger] spec_record(records, c)) is Some ==> spec_record(records, c)->0.mesh_generation <= limit
}

/// How many of `coords` have no live record: the records a pass over them
/// would have to create.
pub open spec fn spec_missing<M>(records: Seq<ChunkRecord<M>>, coords: Seq<ChunkCoord>) -> nat
    decreases coords.len(),
{
    if coords.len() == 0 {
        0
    } else {
        spec_missing(records, coords.drop_last()) + if live(records, coords.last()) {
            0nat
        } else {
            1nat
        }
    }
}

/// A prefix never misses more than the whole.
proof fn lemma_missing_prefix<M>(records: Seq<ChunkRecord<M>>, coords: Seq<ChunkCoord>, k: int)
    requires
        0 <= k <= coords.len(),
    ensures
        spec_missing(records, coords.take(k)) <= spec_missing(records, coords),
        spec_missing(records, coords) <= coords.len(),
    decreases coords.len(),
{
    if coords.len() > 0 {
        if k == coords.len() {
            assert(coords.take(k) =~= coords);
            lemma_missing_prefix(records, coords.drop_last(), k - 1);
        } else {
            assert(coords.drop_last().take(k) =~= coords.take(k));
            lemma_missing_prefix(records, coords.drop_last(), k);
        }
    }
}

/// Over no records, every coordinate is missing.
proof fn lemma_missing_all<M>(coords: Seq<ChunkCoord>)
    ensures
        spec_missing(Seq::<ChunkRecord<M>>::empty(), coords) == coords.len(),
    decreases coords.len(),
{
    if coords.len() > 0 {
        lemma_missing_all::<M>(coords.drop_last());
        assert(spec_record(Seq::<ChunkRecord<M>>::empty(), coords.last()) is None);
    }
}

/// One invalidation moves a record's mesh generation up by one.
proof fn lemma_invalidated_once_gen<M>(
    before: Option<ChunkRecord<M>>,
    after: Option<ChunkRecord<M>>,
    cause: InvalidationCause,
    member: bool,
)
    requires
        spec_invalidated_once(before, after, cause, member),
        before is Some ==> before->0.mesh_generation < u64::MAX,
    ensures
        before is None ==> after is None,
        before is Some ==> after is Some && after->0.mesh_generation == before->0.mesh_generation + 1,
{
    reveal(spec_invalidated_once);
    if before is Some {
        let record = before->0;
        let target = choose|target: Option<MeshStamp>|
            (target is None || target->0.lod == record.lod) && after == Some(
                #[trigger] spec_invalidated(record, cause, member, target),
            );
        assert(after == Some(spec_invalidated(record, cause, member, target)));
    }
}

/// Whether every mesh generation leaves room for a demand move over
/// `records` with `render_count` render chunks: each record is invalidated at
/// most once per leaving record, twice per render chunk and once more for
/// membership, so its generation must stay that far below the maximum.
pub open spec fn spec_generation_room<M>(records: Seq<ChunkRecord<M>>, render_count: int) -> bool {
    let room = records.len() + 2 * render_count + 2;
    &&& room < u64::MAX
    &&& spec_gens_within(records, u64::MAX - room)
}

proof fn lemma_gens_mono<M>(records: Seq<ChunkRecord<M>>, a: int, b: int)
    requires
        spec_gens_within(records, a),
        a <= b,
    ensures
        spec_gens_within(records, b),
{
}

proof fn lemma_face_at_index(face: Face, k: int)
    requires
        face_index(face) == k,
    ensures
        face == spec_face_at(k),
{
}

/// The neighbors across distinct faces are distinct columns.
proof fn lemma_neighbors_distinct(coord: ChunkCoord, k: int)
    requires
        0 <= k < 6,
    ensures
        forall|j: int|
            0 <= j < k && spec_step(coord, spec_face_at(k)) is Some ==> #[trigger] spec_step(coord, spec_face_at(j))
                != spec_step(coord, spec_face_at(k)),
{
}

/// What a neighbor across `face` contributes to the mesh of `coord`: its
/// content identity and the seam rule, or its confirmed absence; nothing
/// while it is not settled.
pub open spec fn spec_neighbor_stamp<M>(
    records: Seq<ChunkRecord<M>>,
    render: Set<ChunkCoord>,
    coord: ChunkCoord,
    face: Face,
) -> Option<NeighborStamp> {
    match spec_record(records, coord) {
        None => None,
        Some(record) => match spec_step(coord, face) {
            None => None,
            Some(next) => match spec_record(records, next) {
                None => None,
                Some(neighbor) => match neighbor.residency {
                    ResidencyState::CpuResident { content_generation, .. } => Some(
                        NeighborStamp::Resident {
                            coord: next,
                            token: neighbor.token,
                            content_generation,
                            seam: spec_seam(
                                record.lod,
                                if render.contains(next) {
                                    NeighborPresentation::Rendered(neighbor.lod)
                                } else {
                                    NeighborPresentation::ContentOnly
                                },
                            ),
                        },
                    ),
                    ResidencyState::KnownAbsent => Some(
                        NeighborStamp::KnownAbsent { coord: next, token: neighbor.token },
                    ),
                    _ => None,
                },
            },
        },
    }
}

/// Whether `target` is the stamp a mesh of `coord` would be built for now:
/// the record is resident and every neighbor is settled; `None` otherwise.
pub open spec fn spec_target<M>(
    records: Seq<ChunkRecord<M>>,
    render: Set<ChunkCoord>,
    coord: ChunkCoord,
    target: Option<MeshStamp>,
) -> bool {
    match spec_record(records, coord) {
        Some(record) => match record.residency {
            ResidencyState::CpuResident { content_generation, .. } => {
                if forall|k: int|
                    0 <= k < 6 ==> (#[trigger] spec_neighbor_stamp(
                        records,
                        render,
                        coord,
                        spec_face_at(k),
                    )) is Some {
                    match target {
                        Some(stamp) => {
                            &&& stamp.coord == coord
                            &&& stamp.request_token == record.token
                            &&& stamp.lod == record.lod
                            &&& stamp.mesh_generation == record.mesh_generation
                            &&& stamp.center_content_generation == content_generation
                            &&& forall|k: int|
                                0 <= k < 6 ==> Some(#[trigger] stamp.neighbors[k])
                                    == spec_neighbor_stamp(records, render, coord, spec_face_at(k))
                        },
                        None => false,
                    }
                } else {
                    target is None
                }
            },
            _ => target is None,
        },
        None => target is None,
    }
}

/// The squared distance of a coordinate from the demand center.
pub open spec fn spec_squared(coord: ChunkCoord, center: ChunkCoord) -> int {
    spec_axis_gap(coord.x, center.x) * spec_axis_gap(coord.x, center.x) + spec_axis_gap(
        coord.y,
        center.y,
    ) * spec_axis_gap(coord.y, center.y) + spec_axis_gap(coord.z, center.z) * spec_axis_gap(
        coord.z,
        center.z,
    )
}

/// The level a coordinate is given at its distance from the center.
pub open spec fn spec_lod_at(
    config: StreamingConfig,
    center: ChunkCoord,
    coord: ChunkCoord,
    previous: Option<LodLevel>,
) -> LodLevel {
    spec_select(
        config.lod_selection,
        if spec_chebyshev(coord, center) > u32::MAX {
            u32::MAX
        } else {
            spec_chebyshev(coord, center) as u32
        },
        previous,
    )
}

/// Whether one runtime differs from another only in its meshes, mesh queue
/// and counters.
pub open spec fn mesh_frame<M>(a: &StreamingRuntime<M>, b: &StreamingRuntime<M>) -> bool {
    &&& a.spec_config() == b.spec_config()
    &&& a.spec_center() == b.spec_center()
    &&& a.spec_demand() == b.spec_demand()
    &&& a.spec_next_token() == b.spec_next_token()
    &&& a.spec_reserved() == b.spec_reserved()
    &&& a.spec_load_queue() == b.spec_load_queue()
    &&& a.spec_in_flight() == b.spec_in_flight()
    &&& a.spec_consecutive_meshes() == b.spec_consecutive_meshes()
    &&& same_residency(a.spec_records(), b.spec_records())
}

/// A stamp without its mesh generation: what determines the geometry.
pub open spec fn spec_geometry_key(stamp: MeshStamp) -> MeshStamp {
    MeshStamp { mesh_generation: 0, ..stamp }
}

/// A record after an invalidation for `cause`, given whether it is in the
/// render set and the stamp it would now be meshed for.
///
/// Outside the render set, or without resident content, nothing is drawn:
/// the committed mesh goes, and the record waits only if its data is still
/// arriving. Otherwise the committed mesh survives only a presentation-only
/// change of the same data; a target equal to what is drawn needs nothing,
/// another target is dirty, and no target yet means waiting for neighbors.
pub open spec fn spec_invalidated<M>(
    record: ChunkRecord<M>,
    cause: InvalidationCause,
    member: bool,
    target: Option<MeshStamp>,
) -> ChunkRecord<M> {
    let bumped = ChunkRecord {
        last_invalidation: Some(cause),
        mesh_generation: (record.mesh_generation + 1) as u64,
        ..record
    };
    if !member || !(record.residency is CpuResident) {
        ChunkRecord {
            mesh: if member && (record.residency is LoadQueued || record.residency is Loading) {
                MeshState::WaitingForNeighbors
            } else {
                MeshState::NotRequired
            },
            committed: None,
            ..bumped
        }
    } else {
        let kept = match record.committed {
            Some(committed) => cause != InvalidationCause::Data && match target {
                Some(stamp) => spec_differs_only_by_presentation(committed.stamp, stamp),
                None => false,
            },
            None => false,
        };
        let committed = if kept {
            record.committed
        } else {
            None
        };
        match target {
            None => ChunkRecord { mesh: MeshState::WaitingForNeighbors, committed, ..bumped },
            Some(stamp) => if kept && spec_geometry_key(record.committed->0.stamp)
                == spec_geometry_key(stamp) {
                ChunkRecord { mesh: MeshState::Committed, committed, ..bumped }
            } else {
                ChunkRecord { mesh: MeshState::Dirty(stamp), committed, ..bumped }
            },
        }
    }
}

/// The loads a rebuilt queue holds: every queued record still in the
/// dependency set, in record order.
pub open spec fn spec_load_entries<M>(
    records: Seq<ChunkRecord<M>>,
    dependency: Set<ChunkCoord>,
    center: ChunkCoord,
) -> Seq<LoadQueueEntry>
    decreases records.len(),
{
    if records.len() == 0 {
        Seq::empty()
    } else {
        let rest = spec_load_entries(records.drop_last(), dependency, center);
        let record = records.last();
        if record.residency is LoadQueued && dependency.contains(record.coord) {
            rest.push(
                LoadQueueEntry {
                    squared: spec_squared(record.coord, center) as u128,
                    coord: record.coord,
                    token: record.token,
                },
            )
        } else {
            rest
        }
    }
}

/// The mesh jobs a rebuilt queue holds: every dirty record, in record order.
pub open spec fn spec_mesh_entries<M>(records: Seq<ChunkRecord<M>>, center: ChunkCoord) -> Seq<
    MeshQueueEntry,
>
    decreases records.len(),
{
    if records.len() == 0 {
        Seq::empty()
    } else {
        let rest = spec_mesh_entries(records.drop_last(), center);
        let record = records.last();
        match record.mesh {
            MeshState::Dirty(stamp) => rest.push(
                MeshQueueEntry {
                    rank: if stamp.lod == LodLevel::Lod0 {
                        0
                    } else {
                        1
                    },
                    squared: spec_squared(record.coord, center) as u128,
                    coord: record.coord,
                    token: record.token,
                    mesh_generation: stamp.mesh_generation,
                    lod: stamp.lod,
                },
            ),
            _ => rest,
        }
    }
}

/// Whether a coordinate has a record that is not retiring.
pub open spec fn live<M>(records: Seq<ChunkRecord<M>>, coord: ChunkCoord) -> bool {
    spec_record(records, coord) is Some && !(spec_record(records, coord)->0.residency is EvictPending)
}

/// Whether two record sequences give a coordinate the same residency and
/// level.
pub open spec fn same_standing<M>(a: Seq<ChunkRecord<M>>, b: Seq<ChunkRecord<M>>, coord: ChunkCoord) -> bool {
    &&& spec_record(a, coord) is Some
    &&& spec_record(b, coord) is Some
    &&& spec_record(a, coord)->0.residency == spec_record(b, coord)->0.residency
    &&& spec_record(a, coord)->0.lod == spec_record(b, coord)->0.lod
    &&& spec_record(a, coord)->0.token == spec_record(b, coord)->0.token
}

/// The records left after releasing at most `budget` retiring records, the
/// first ones in record order.
pub open spec fn spec_release<M>(records: Seq<ChunkRecord<M>>, budget: nat) -> Seq<ChunkRecord<M>>
    decreases records.len(),
{
    if records.len() == 0 {
        records
    } else {
        let rest = records.skip(1);
        if records[0].residency is EvictPending && budget > 0 {
            spec_release(rest, (budget - 1) as nat)
        } else {
            seq![records[0]] + spec_release(rest, budget)
        }
    }
}

/// Whether a mesh result is stale because of a level change: of its center,
/// or of a neighbor's presentation that changed the seam it applied.
/// Neighbors no longer resident cannot be compared.
pub open spec fn spec_lod_stale<M>(
    records: Seq<ChunkRecord<M>>,
    render: Set<ChunkCoord>,
    stamp: MeshStamp,
) -> bool {
    match spec_record(records, stamp.coord) {
        None => false,
        Some(record) => record.lod != stamp.lod || exists|k: int|
            0 <= k < 6 && match (
                #[trigger] spec_neighbor_stamp(records, render, stamp.coord, spec_face_at(k)),
                stamp.neighbors[k],
            ) {
                (
                    Some(NeighborStamp::Resident { seam: current, .. }),
                    NeighborStamp::Resident { seam: previous, .. },
                ) => current != previous,
                _ => false,
            },
    }
}

/// What the worker should be handed next.
#[derive(Clone, Copy, Debug)]
pub enum Job {
    /// Load the chunk of a queued record.
    Load { entry: LoadQueueEntry },
    /// Mesh a record for its current target.
    Mesh { entry: MeshQueueEntry, stamp: MeshStamp },
    /// Nothing is ready.
    Idle,
}

/// A queued load that still names a record waiting for it, in the
/// dependency set.
pub open spec fn spec_valid_load<M>(
    records: Seq<ChunkRecord<M>>,
    dependency: Set<ChunkCoord>,
    entry: LoadQueueEntry,
) -> bool {
    &&& spec_record(records, entry.coord) is Some
    &&& spec_record(records, entry.coord)->0.token == entry.token
    &&& spec_record(records, entry.coord)->0.residency is LoadQueued
    &&& dependency.contains(entry.coord)
}

/// A queued mesh job that still names a dirty record at its generation.
pub open spec fn spec_valid_mesh<M>(records: Seq<ChunkRecord<M>>, entry: MeshQueueEntry) -> bool {
    &&& spec_record(records, entry.coord) is Some
    &&& spec_record(records, entry.coord)->0.token == entry.token
    &&& match spec_record(records, entry.coord)->0.mesh {
        MeshState::Dirty(stamp) => stamp.mesh_generation == entry.mesh_generation,
        _ => false,
    }
}

/// Whether `first` is the load a queue offers: the valid entry that pops
/// first, or none when no entry is valid.
pub open spec fn spec_first_load<M>(
    records: Seq<ChunkRecord<M>>,
    dependency: Set<ChunkCoord>,
    queue: Seq<LoadQueueEntry>,
    first: Option<LoadQueueEntry>,
) -> bool {
    match first {
        Some(entry) => {
            &&& queue.contains(entry)
            &&& spec_valid_load(records, dependency, entry)
            &&& forall|x: LoadQueueEntry|
                #[trigger] queue.contains(x) && spec_valid_load(records, dependency, x)
                    ==> load_precedes(entry, x)
        },
        None => forall|x: LoadQueueEntry|
            #[trigger] queue.contains(x) ==> !spec_valid_load(records, dependency, x),
    }
}

/// Whether `first` is the mesh job a queue offers.
pub open spec fn spec_first_mesh<M>(
    records: Seq<ChunkRecord<M>>,
    queue: Seq<MeshQueueEntry>,
    first: Option<MeshQueueEntry>,
) -> bool {
    match first {
        Some(entry) => {
            &&& queue.contains(entry)
            &&& spec_valid_mesh(records, entry)
            &&& forall|x: MeshQueueEntry|
                #[trigger] queue.contains(x) && spec_valid_mesh(records, x) ==> mesh_precedes(entry, x)
        },
        None => forall|x: MeshQueueEntry| #[trigger] queue.contains(x) ==> !spec_valid_mesh(records, x),
    }
}

/// The mesh job a queue offers is the nearest full-detail one: no valid job
/// in the queue has a lower rank, and none of the same rank is nearer.
pub proof fn lemma_first_mesh_is_nearest<M>(
    records: Seq<ChunkRecord<M>>,
    queue: Seq<MeshQueueEntry>,
    entry: MeshQueueEntry,
)
    requires
        spec_first_mesh(records, queue, Some(entry)),
    ensures
        forall|x: MeshQueueEntry|
            #[trigger] queue.contains(x) && spec_valid_mesh(records, x) ==> entry.rank <= x.rank && (
            x.rank == entry.rank ==> entry.squared <= x.squared),
{
}

/// The load a queue offers is the nearest valid one.
pub proof fn lemma_first_load_is_nearest<M>(
    records: Seq<ChunkRecord<M>>,
    dependency: Set<ChunkCoord>,
    queue: Seq<LoadQueueEntry>,
    entry: LoadQueueEntry,
)
    requires
        spec_first_load(records, dependency, queue, Some(entry)),
    ensures
        forall|x: LoadQueueEntry|
            #[trigger] queue.contains(x) && spec_valid_load(records, dependency, x)
                ==> entry.squared <= x.squared,
{
}

/// Whether a render record with resident content needs a replacement before
/// its target is shown, given its target: nothing drawn, no target, or a
/// target of other geometry.
pub open spec fn spec_needs_transition<M>(
    records: Seq<ChunkRecord<M>>,
    render: Set<ChunkCoord>,
    coord: ChunkCoord,
    target: Option<MeshStamp>,
) -> bool {
    match spec_record(records, coord) {
        None => false,
        Some(record) => render.contains(coord) && record.residency is CpuResident && match record.committed {
            None => true,
            Some(committed) => match target {
                None => true,
                Some(stamp) => spec_geometry_key(committed.stamp) != spec_geometry_key(stamp),
            },
        },
    }
}

/// Whether switching a record from its committed mesh to its target changes
/// the seam toward the neighbor at position `k` of the `ALL` order: an
/// undrawn record changes nothing, a drawn one without a target or at
/// another level changes every seam, otherwise a seam changes with the
/// dependency stamp captured toward that neighbor.
pub open spec fn spec_seam_change<M>(record: Option<ChunkRecord<M>>, target: Option<MeshStamp>, k: int) -> bool {
    match record {
        None => false,
        Some(record) => match record.committed {
            None => false,
            Some(committed) => match target {
                None => true,
                Some(stamp) => committed.stamp.lod != stamp.lod || committed.stamp.neighbors[k]
                    != stamp.neighbors[k],
            },
        },
    }
}

/// Whether a record holds a ready mesh built for its current target.
pub open spec fn spec_ready_for_target<M>(
    records: Seq<ChunkRecord<M>>,
    render: Set<ChunkCoord>,
    coord: ChunkCoord,
) -> bool {
    &&& spec_record(records, coord) is Some
    &&& match spec_record(records, coord)->0.mesh {
        MeshState::CpuReady { stamp, .. } => spec_target(records, render, coord, Some(stamp)),
        _ => false,
    }
}

/// A record after its ready mesh is committed.
pub open spec fn spec_committed<M>(record: ChunkRecord<M>) -> ChunkRecord<M> {
    match record.mesh {
        MeshState::CpuReady { stamp, mesh, bytes } => ChunkRecord {
            mesh: MeshState::Committed,
            committed: Some(CommittedMesh { stamp, mesh, bytes }),
            ..record
        },
        _ => record,
    }
}

/// Whether a record still has work ahead: a load, or a mesh to build.
pub open spec fn spec_busy<M>(record: ChunkRecord<M>) -> bool {
    ||| record.residency is LoadQueued
    ||| record.residency is Loading
    ||| record.mesh is Dirty
    ||| record.mesh is Meshing
    ||| record.mesh is WaitingForNeighbors
}

/// What an observer sees of one record.
pub open spec fn spec_tracked_state<M>(record: ChunkRecord<M>) -> TrackedState {
    TrackedState {
        coord: record.coord,
        residency: spec_residency_status(record.residency),
        mesh: spec_mesh_status(record.mesh),
        lod: record.lod,
        committed: record.committed is Some,
        pending: record.mesh is CpuReady,
    }
}

/// The render records holding a ready mesh (or, with `committed`, a
/// committed one), in record order.
pub open spec fn spec_render_meshes<M>(
    records: Seq<ChunkRecord<M>>,
    render: Set<ChunkCoord>,
    committed: bool,
) -> Seq<ChunkCoord>
    decreases records.len(),
{
    if records.len() == 0 {
        Seq::empty()
    } else {
        let rest = spec_render_meshes(records.drop_last(), render, committed);
        let record = records.last();
        let holds = if committed {
            record.committed is Some
        } else {
            record.mesh is CpuReady
        };
        if render.contains(record.coord) && holds {
            rest.push(record.coord)
        } else {
            rest
        }
    }
}

/// Where a mesh job takes the voxels across one face.
#[derive(Clone, Copy, Debug, PartialEq, Eq, Structural)]
pub enum SlabSource {
    /// The neighbor is confirmed absent: air.
    KnownAir,
    /// The neighbor's boundary layer at full detail.
    FromNeighbor(ChunkCoord),
    /// A fine center next to a coarse neighbor: the coarse occupancy of the
    /// neighbor's boundary.
    CoarseOccupancy(ChunkCoord),
    /// A coarse center next to a fine neighbor: where the fine boundary layer
    /// covers each coarse cell completely.
    FineCoverage(ChunkCoord),
    /// The neighbor's boundary downsampled to the coarse grid.
    Downsampled(ChunkCoord),
}

/// Where the voxels across one face come from for a job at `lod`, given the
/// dependency stamp captured toward that face.
pub open spec fn spec_slab_source(lod: LodLevel, neighbor: NeighborStamp) -> SlabSource {
    match neighbor {
        NeighborStamp::KnownAbsent { .. } => SlabSource::KnownAir,
        NeighborStamp::Resident { coord, seam, .. } => match lod {
            LodLevel::Lod0 => if seam == SeamContract::CoarseNeighbor {
                SlabSource::CoarseOccupancy(coord)
            } else {
                SlabSource::FromNeighbor(coord)
            },
            LodLevel::Lod1 => if seam == SeamContract::FineNeighbor {
                SlabSource::FineCoverage(coord)
            } else {
                SlabSource::Downsampled(coord)
            },
        },
    }
}

/// `value + by`, wrapping at the width of `usize`.
pub open spec fn bump(value: usize, by: usize) -> usize {
    vstd::wrapping::usize_specs::wrapping_add(value, by)
}

/// A summary with one more record counted in.
pub open spec fn spec_tally_record<M>(
    summary: ResidencySummary,
    record: ChunkRecord<M>,
    in_render: bool,
) -> ResidencySummary {
    let s0 = summary;
    let s1 = if in_render {
        match record.lod {
            LodLevel::Lod0 => ResidencySummary { lod0_desired: bump(s0.lod0_desired, 1), ..s0 },
            LodLevel::Lod1 => ResidencySummary { lod1_desired: bump(s0.lod1_desired, 1), ..s0 },
        }
    } else {
        s0
    };
    let s2 = if in_render && record.residency is KnownAbsent {
        ResidencySummary { render_known_absent: bump(s1.render_known_absent, 1), ..s1 }
    } else {
        s1
    };
    let s3 = match record.residency {
        ResidencyState::LoadQueued => ResidencySummary { load_queued: bump(s2.load_queued, 1), ..s2 },
        ResidencyState::Loading => ResidencySummary { loading: bump(s2.loading, 1), ..s2 },
        ResidencyState::CpuResident { .. } => ResidencySummary {
            cpu_resident: bump(s2.cpu_resident, 1),
            resident_payload_bytes: bump(s2.resident_payload_bytes, CHUNK_BYTES),
            ..s2
        },
        ResidencyState::KnownAbsent => ResidencySummary { known_absent: bump(s2.known_absent, 1), ..s2 },
        ResidencyState::EvictPending(chunk) => ResidencySummary {
            evict_pending: bump(s2.evict_pending, 1),
            resident_payload_bytes: if chunk is Some {
                bump(s2.resident_payload_bytes, CHUNK_BYTES)
            } else {
                s2.resident_payload_bytes
            },
            ..s2
        },
    };
    let s4 = match record.mesh {
        MeshState::NotRequired => s3,
        MeshState::WaitingForNeighbors => ResidencySummary { mesh_waiting: bump(s3.mesh_waiting, 1), ..s3 },
        MeshState::Dirty(_) => ResidencySummary { mesh_dirty: bump(s3.mesh_dirty, 1), ..s3 },
        MeshState::Meshing(_) => ResidencySummary { mesh_meshing: bump(s3.mesh_meshing, 1), ..s3 },
        MeshState::CpuReady { stamp, bytes, .. } => {
            let s = ResidencySummary {
                mesh_ready: bump(s3.mesh_ready, 1),
                cpu_mesh_bytes: bump(s3.cpu_mesh_bytes, bytes),
                ..s3
            };
            match stamp.lod {
                LodLevel::Lod0 => ResidencySummary { lod0_ready: bump(s.lod0_ready, 1), ..s },
                LodLevel::Lod1 => ResidencySummary { lod1_ready: bump(s.lod1_ready, 1), ..s },
            }
        },
        MeshState::Committed => s3,
    };
    match record.committed {
        None => s4,
        Some(committed) => {
            let s = ResidencySummary { cpu_mesh_bytes: bump(s4.cpu_mesh_bytes, committed.bytes), ..s4 };
            let s = match committed.stamp.lod {
                LodLevel::Lod0 => ResidencySummary { lod0_committed: bump(s.lod0_committed, 1), ..s },
                LodLevel::Lod1 => ResidencySummary { lod1_committed: bump(s.lod1_committed, 1), ..s },
            };
            if record.mesh is Committed {
                s
            } else {
                ResidencySummary { transition_pending: bump(s.transition_pending, 1), ..s }
            }
        },
    }
}

/// A summary with every record counted in, in record order.
pub open spec fn spec_tally_records<M>(
    base: ResidencySummary,
    records: Seq<ChunkRecord<M>>,
    render: Set<ChunkCoord>,
) -> ResidencySummary
    decreases records.len(),
{
    if records.len() == 0 {
        base
    } else {
        spec_tally_record(
            spec_tally_records(base, records.drop_last(), render),
            records.last(),
            render.contains(records.last().coord),
        )
    }
}

/// Counts one record into a summary.
fn tally_record<M>(summary: ResidencySummary, record: &ChunkRecord<M>, in_render: bool) -> (tallied: ResidencySummary)
    ensures
        tallied == spec_tally_record(summary, *record, in_render),
{
    let mut s = summary;
    if in_render {
        match record.lod {
            LodLevel::Lod0 => s.lod0_desired = s.lod0_desired.wrapping_add(1),
            LodLevel::Lod1 => s.lod1_desired = s.lod1_desired.wrapping_add(1),
        }
        match record.residency {
            ResidencyState::KnownAbsent => s.render_known_absent = s.render_known_absent.wrapping_add(1),
            _ => {},
        }
    }
    match &record.residency {
        ResidencyState::LoadQueued => s.load_queued = s.load_queued.wrapping_add(1),
        ResidencyState::Loading => s.loading = s.loading.wrapping_add(1),
        ResidencyState::CpuResident { .. } => {
            s.cpu_resident = s.cpu_resident.wrapping_add(1);
            s.resident_payload_bytes = s.resident_payload_bytes.wrapping_add(CHUNK_BYTES);
        },
        ResidencyState::KnownAbsent => s.known_absent = s.known_absent.wrapping_add(1),
        ResidencyState::EvictPending(chunk) => {
            s.evict_pending = s.evict_pending.wrapping_add(1);
            if chunk.is_some() {
                s.resident_payload_bytes = s.resident_payload_bytes.wrapping_add(CHUNK_BYTES);
            }
        },
    }
    match &record.mesh {
        MeshState::NotRequired => {},
        MeshState::WaitingForNeighbors => s.mesh_waiting = s.mesh_waiting.wrapping_add(1),
        MeshState::Dirty(_) => s.mesh_dirty = s.mesh_dirty.wrapping_add(1),
        MeshState::Meshing(_) => s.mesh_meshing = s.mesh_meshing.wrapping_add(1),
        MeshState::CpuReady { stamp, bytes, .. } => {
            s.mesh_ready = s.mesh_ready.wrapping_add(1);
            s.cpu_mesh_bytes = s.cpu_mesh_bytes.wrapping_add(*bytes);
            match stamp.lod {
                LodLevel::Lod0 => s.lod0_ready = s.lod0_ready.wrapping_add(1),
                LodLevel::Lod1 => s.lod1_ready = s.lod1_ready.wrapping_add(1),
            }
        },
        MeshState::Committed => {},
    }
    match &record.committed {
        None => {},
        Some(committed) => {
            s.cpu_mesh_bytes = s.cpu_mesh_bytes.wrapping_add(committed.bytes);
            match committed.stamp.lod {
                LodLevel::Lod0 => s.lod0_committed = s.lod0_committed.wrapping_add(1),
                LodLevel::Lod1 => s.lod1_committed = s.lod1_committed.wrapping_add(1),
            }
            match record.mesh {
                MeshState::Committed => {},
                _ => s.transition_pending = s.transition_pending.wrapping_add(1),
            }
        },
    }
    s
}

/// The position in the `ALL` order of the face opposite position `k`.
pub open spec fn opposite_index(k: int) -> int {
    if k % 2 == 0 {
        k + 1
    } else {
        k - 1
    }
}

/// Whether a coordinate is a render record that needs a transition.
pub open spec fn spec_dirty<M>(records: Seq<ChunkRecord<M>>, render: Set<ChunkCoord>, coord: ChunkCoord) -> bool {
    exists|target: Option<MeshStamp>|
        #[trigger] spec_target(records, render, coord, target) && spec_needs_transition(
            records,
            render,
            coord,
            target,
        )
}

/// Whether switching `coord` to its target changes its seam toward the
/// neighbor at position `k`.
pub open spec fn spec_face_changes<M>(
    records: Seq<ChunkRecord<M>>,
    render: Set<ChunkCoord>,
    coord: ChunkCoord,
    k: int,
) -> bool {
    exists|target: Option<MeshStamp>|
        #[trigger] spec_target(records, render, coord, target) && spec_seam_change(
            spec_record(records, coord),
            target,
            k,
        )
}

/// Whether two dirty neighbors must switch in the same frame: a drawn side's
/// seam toward the other changes.
pub open spec fn spec_edge<M>(
    records: Seq<ChunkRecord<M>>,
    render: Set<ChunkCoord>,
    a: ChunkCoord,
    b: ChunkCoord,
) -> bool {
    &&& spec_dirty(records, render, a)
    &&& spec_dirty(records, render, b)
    &&& exists|k: int|
        0 <= k < 6 && #[trigger] spec_step(a, spec_face_at(k)) == Some(b) && (spec_face_changes(
            records,
            render,
            a,
            k,
        ) || spec_face_changes(records, render, b, opposite_index(k)))
}

/// Whether a sequence is connected by edges: every element after the first
/// meets an earlier one.
pub open spec fn spec_spanned<M>(
    records: Seq<ChunkRecord<M>>,
    render: Set<ChunkCoord>,
    order: Seq<ChunkCoord>,
) -> bool {
    &&& order.len() > 0
    &&& forall|i: int| 0 < i < order.len() ==> #[trigger] spec_joined_earlier(records, render, order, i)
}

/// Whether the member at `i` is joined to one listed before it.
pub open spec fn spec_joined_earlier<M>(
    records: Seq<ChunkRecord<M>>,
    render: Set<ChunkCoord>,
    order: Seq<ChunkCoord>,
    i: int,
) -> bool {
    exists|j: int| 0 <= j < i && #[trigger] spec_edge(records, render, order[j], order[i])
}

/// Whether `group` is connected over joins: its members can be listed so
/// that each after the first is joined to an earlier one.
pub open spec fn spec_connected<M>(
    records: Seq<ChunkRecord<M>>,
    render: Set<ChunkCoord>,
    group: Seq<ChunkCoord>,
) -> bool {
    exists|order: Seq<ChunkCoord>|
        spec_spanned(records, render, order) && forall|c: ChunkCoord|
            #[trigger] order.contains(c) <==> group.contains(c)
}

/// Whether coordinates are held in strictly ascending order.
pub open spec fn coords_sorted(coords: Seq<ChunkCoord>) -> bool {
    forall|i: int, j: int| 0 <= i < j < coords.len() ==> coord_lt(#[trigger] coords[i], #[trigger] coords[j])
}

/// The same coordinates in strictly ascending order.
pub fn sort_coords(coords: &Vec<ChunkCoord>) -> (sorted: Vec<ChunkCoord>)
    requires
        coords@.no_duplicates(),
    ensures
        coords_sorted(sorted@),
        sorted@.len() == coords@.len(),
        forall|c: ChunkCoord| #[trigger] sorted@.contains(c) <==> coords@.contains(c),
{
    let mut sorted: Vec<ChunkCoord> = Vec::new();
    let mut i: usize = 0;
    while i < coords.len()
        invariant
            coords@.no_duplicates(),
            i <= coords@.len(),
            coords_sorted(sorted@),
            sorted@.len() == i,
            forall|c: ChunkCoord| #[trigger] sorted@.contains(c) <==> coords@.take(i as int).contains(c),
        decreases coords@.len() - i,
    {
        let x = coords[i];
        proof {
            assert(!coords@.take(i as int).contains(x)) by {
                if coords@.take(i as int).contains(x) {
                    let j = choose|j: int| 0 <= j < i && coords@.take(i as int)[j] == x;
                    assert(coords@[j] == coords@[i as int]);
                }
            }
            assert(!sorted@.contains(x));
        }
        let mut p: usize = 0;
        while p < sorted.len() && !coord_less(x, sorted[p])
            invariant
                p <= sorted@.len(),
                !sorted@.contains(x),
                forall|k: int| 0 <= k < p ==> coord_lt(#[trigger] sorted@[k], x),
            decreases sorted@.len() - p,
        {
            proof {
                assert(sorted@[p as int] != x);
            }
            p = p + 1;
        }
        let ghost before = sorted@;
        sorted.insert(p, x);
        proof {
            assert forall|k: int| p <= k < before.len() implies coord_lt(x, #[trigger] before[k]) by {
                if k > p {
                    assert(coord_lt(before[p as int], before[k]));
                }
            }
            assert forall|a: int, b: int| 0 <= a < b < sorted@.len() implies coord_lt(
                #[trigger] sorted@[a],
                #[trigger] sorted@[b],
            ) by {
                if b < p {
                    assert(coord_lt(before[a], before[b]));
                } else if b == p {
                } else if a < p {
                    assert(coord_lt(before[a], x));
                    assert(coord_lt(x, before[b - 1]));
                } else if a == p {
                    assert(coord_lt(x, before[b - 1]));
                } else {
                    assert(coord_lt(before[a - 1], before[b - 1]));
                }
            }
            assert(coords@.take(i + 1) =~= coords@.take(i as int).push(x));
            assert forall|c: ChunkCoord| #[trigger] sorted@.contains(c) <==> coords@.take(i + 1).contains(c) by {
                if sorted@.contains(c) {
                    let k = choose|k: int| 0 <= k < sorted@.len() && sorted@[k] == c;
                    if k < p {
                        assert(before[k] == c);
                        assert(before.contains(c));
                    } else if k > p {
                        assert(before[k - 1] == c);
                        assert(before.contains(c));
                    } else {
                        assert(coords@.take(i + 1)[i as int] == c);
                    }
                }
                if coords@.take(i + 1).contains(c) {
                    if c == x {
                        assert(sorted@[p as int] == x);
                    } else {
                        assert(coords@.take(i as int).contains(c)) by {
                            let k = choose|k: int| 0 <= k < i + 1 && #[trigger] coords@.take(i + 1)[k] == c;
                            assert(k < i);
                            assert(coords@.take(i as int)[k] == c);
                        }
                        assert(before.contains(c));
                        let k = choose|k: int| 0 <= k < before.len() && before[k] == c;
                        if k < p {
                            assert(sorted@[k] == c);
                        } else {
                            assert(sorted@[k + 1] == c);
                        }
                    }
                }
            }
        }
        i = i + 1;
    }
    proof {
        assert(coords@.take(i as int) =~= coords@);
    }
    sorted
}

/// The shape of a group while it grows: the seen list is the earlier one
/// followed by the group, the group starts at `start`, repeats nothing,
/// needs transitions only, met nothing seen before and is connected.
#[verifier::opaque]
spec fn grow_shape<M>(
    records: Seq<ChunkRecord<M>>,
    render: Set<ChunkCoord>,
    seen_before: Seq<ChunkCoord>,
    start: ChunkCoord,
    seen: Seq<ChunkCoord>,
    group: Seq<ChunkCoord>,
) -> bool {
    &&& seen == seen_before + group
    &&& group.len() > 0
    &&& group[0] == start
    &&& group.no_duplicates()
    &&& forall|c: ChunkCoord| #[trigger] group.contains(c) ==> spec_dirty(records, render, c) && !seen_before.contains(c)
    &&& spec_spanned(records, render, group)
}

/// Every member off the stack, other than `current` beyond position `k`,
/// has every joined neighbor that needs a transition seen.
#[verifier::opaque]
spec fn grow_closed<M>(
    records: Seq<ChunkRecord<M>>,
    render: Set<ChunkCoord>,
    seen: Seq<ChunkCoord>,
    group: Seq<ChunkCoord>,
    stack: Seq<ChunkCoord>,
    current: Option<ChunkCoord>,
    k: int,
) -> bool {
    forall|c: ChunkCoord, m: int|
        #[trigger] group.contains(c) && !stack.contains(c) && (current != Some(c) || m < k) && 0 <= m < 6
            && spec_step(c, spec_face_at(m)) is Some && spec_dirty(
            records,
            render,
            spec_step(c, spec_face_at(m))->0,
        ) && (spec_face_changes(records, render, c, m) || spec_face_changes(
            records,
            render,
            spec_step(c, spec_face_at(m))->0,
            opposite_index(m),
        )) ==> #[trigger] seen.contains(spec_step(c, spec_face_at(m))->0)
}

/// What growing a group keeps: its shape, a stack and a current member
/// inside the group, and closure of everything already expanded.
spec fn grow_inv<M>(
    records: Seq<ChunkRecord<M>>,
    render: Set<ChunkCoord>,
    seen_before: Seq<ChunkCoord>,
    start: ChunkCoord,
    seen: Seq<ChunkCoord>,
    group: Seq<ChunkCoord>,
    stack: Seq<ChunkCoord>,
    current: Option<ChunkCoord>,
    k: int,
) -> bool {
    &&& grow_shape(records, render, seen_before, start, seen, group)
    &&& forall|c: ChunkCoord| #[trigger] stack.contains(c) ==> group.contains(c)
    &&& current is Some ==> group.contains(current->0)
    &&& grow_closed(records, render, seen, group, stack, current, k)
}

proof fn lemma_grow_init<M>(
    records: Seq<ChunkRecord<M>>,
    render: Set<ChunkCoord>,
    seen_before: Seq<ChunkCoord>,
    start: ChunkCoord,
    seen: Seq<ChunkCoord>,
    group: Seq<ChunkCoord>,
    stack: Seq<ChunkCoord>,
)
    requires
        spec_dirty(records, render, start),
        !seen_before.contains(start),
        seen == seen_before.push(start),
        group == seq![start],
        stack == seq![start],
    ensures
        grow_inv(records, render, seen_before, start, seen, group, stack, None, 0),
{
    reveal(grow_shape);
    reveal(grow_closed);
    assert(seen =~= seen_before + group);
    assert forall|c: ChunkCoord| #[trigger] group.contains(c) implies c == start by {
        let j = choose|j: int| 0 <= j < group.len() && group[j] == c;
    }
    assert forall|c: ChunkCoord| #[trigger] stack.contains(c) implies group.contains(c) by {
        let j = choose|j: int| 0 <= j < stack.len() && stack[j] == c;
        assert(group[0] == c);
    }
    assert(stack.contains(start)) by {
        assert(stack[0] == start);
    }
}

proof fn lemma_grow_bounded<M>(
    records: Seq<ChunkRecord<M>>,
    render: Set<ChunkCoord>,
    seen_before: Seq<ChunkCoord>,
    start: ChunkCoord,
    seen: Seq<ChunkCoord>,
    group: Seq<ChunkCoord>,
    stack: Seq<ChunkCoord>,
    current: Option<ChunkCoord>,
    k: int,
    dirty: Seq<ChunkCoord>,
)
    requires
        grow_inv(records, render, seen_before, start, seen, group, stack, current, k),
        forall|c: ChunkCoord| #[trigger] dirty.contains(c) <==> spec_dirty(records, render, c),
    ensures
        group.len() <= dirty.len(),
{
    reveal(grow_shape);
    assert forall|c: ChunkCoord| #[trigger] group.contains(c) implies dirty.contains(c) by {}
    lemma_unique_within(group, dirty);
}

proof fn lemma_grow_pop<M>(
    records: Seq<ChunkRecord<M>>,
    render: Set<ChunkCoord>,
    seen_before: Seq<ChunkCoord>,
    start: ChunkCoord,
    seen: Seq<ChunkCoord>,
    group: Seq<ChunkCoord>,
    stack: Seq<ChunkCoord>,
    coord: ChunkCoord,
)
    requires
        grow_inv(records, render, seen_before, start, seen, group, stack.push(coord), None, 0),
    ensures
        grow_inv(records, render, seen_before, start, seen, group, stack, Some(coord), 0),
        spec_dirty(records, render, coord),
{
    reveal(grow_shape);
    reveal(grow_closed);
    let full = stack.push(coord);
    assert(full.contains(coord)) by {
        assert(full[stack.len() as int] == coord);
    }
    assert forall|c: ChunkCoord| #[trigger] stack.contains(c) implies group.contains(c) by {
        let j = choose|j: int| 0 <= j < stack.len() && stack[j] == c;
        assert(full[j] == c);
        assert(full.contains(c));
    }
    assert forall|c: ChunkCoord, m: int|
        #[trigger] group.contains(c) && !stack.contains(c) && (Some(coord) != Some(c) || m < 0) && 0 <= m < 6
            && spec_step(c, spec_face_at(m)) is Some && spec_dirty(
            records,
            render,
            spec_step(c, spec_face_at(m))->0,
        ) && (spec_face_changes(records, render, c, m) || spec_face_changes(
            records,
            render,
            spec_step(c, spec_face_at(m))->0,
            opposite_index(m),
        )) implies #[trigger] seen.contains(spec_step(c, spec_face_at(m))->0) by {
        assert(!full.contains(c)) by {
            if full.contains(c) {
                let j = choose|j: int| 0 <= j < full.len() && full[j] == c;
                if j < stack.len() {
                    assert(stack[j] == c);
                }
            }
        }
    }
}

#[verifier::spinoff_prover]
proof fn lemma_shape_push<M>(
    records: Seq<ChunkRecord<M>>,
    render: Set<ChunkCoord>,
    seen_before: Seq<ChunkCoord>,
    start: ChunkCoord,
    coord: ChunkCoord,
    n: ChunkCoord,
    seen0: Seq<ChunkCoord>,
    group0: Seq<ChunkCoord>,
    seen1: Seq<ChunkCoord>,
    group1: Seq<ChunkCoord>,
)
    requires
        seen1 == seen0.push(n),
        group1 == group0.push(n),
        grow_shape(records, render, seen_before, start, seen0, group0),
        group0.contains(coord),
        !seen0.contains(n),
        spec_dirty(records, render, n),
        spec_edge(records, render, coord, n),
    ensures
        grow_shape(records, render, seen_before, start, seen1, group1),
        forall|c: ChunkCoord| #[trigger] group1.contains(c) <==> group0.contains(c) || c == n,
        forall|c: ChunkCoord| #[trigger] seen0.contains(c) ==> seen1.contains(c),
{
    reveal(grow_shape);
    assert(seen1 =~= seen_before + group1);
    assert(!group0.contains(n)) by {
        if group0.contains(n) {
            let j = choose|j: int| 0 <= j < group0.len() && group0[j] == n;
            assert(seen0[seen_before.len() + j] == n);
        }
    }
    assert(!seen_before.contains(n)) by {
        if seen_before.contains(n) {
            let j = choose|j: int| 0 <= j < seen_before.len() && seen_before[j] == n;
            assert(seen0[j] == n);
        }
    }
    assert(group1[group0.len() as int] == n);
    assert forall|c: ChunkCoord| #[trigger] group1.contains(c) <==> group0.contains(c) || c == n by {
        if group1.contains(c) {
            let j = choose|j: int| 0 <= j < group1.len() && group1[j] == c;
            if j < group0.len() {
                assert(group0[j] == c);
            }
        }
        if group0.contains(c) {
            let j = choose|j: int| 0 <= j < group0.len() && group0[j] == c;
            assert(group1[j] == c);
        }
    }
    assert forall|c: ChunkCoord| #[trigger] seen0.contains(c) implies seen1.contains(c) by {
        let j = choose|j: int| 0 <= j < seen0.len() && seen0[j] == c;
        assert(seen1[j] == c);
    }
    assert forall|a: int, b: int| 0 <= a < b < group1.len() implies group1[a] != group1[b] by {
        if b == group0.len() {
            assert(group0.contains(group1[a])) by {
                assert(group0[a] == group1[a]);
            }
        } else {
            assert(group0[a] != group0[b]);
        }
    }
    assert forall|i: int| 0 < i < group1.len() implies #[trigger] spec_joined_earlier(records, render, group1, i) by {
        if i < group0.len() {
            assert(spec_joined_earlier(records, render, group0, i));
            let j = choose|j: int| 0 <= j < i && #[trigger] spec_edge(records, render, group0[j], group0[i]);
            assert(group1[j] == group0[j] && group1[i] == group0[i]);
        } else {
            let j = choose|j: int| 0 <= j < group0.len() && group0[j] == coord;
            assert(group1[j] == coord);
            assert(spec_edge(records, render, group1[j], group1[i]));
        }
    }
    assert(spec_spanned(records, render, group1));
}

proof fn lemma_closed_push<M>(
    records: Seq<ChunkRecord<M>>,
    render: Set<ChunkCoord>,
    coord: ChunkCoord,
    k: int,
    n: ChunkCoord,
    seen0: Seq<ChunkCoord>,
    group0: Seq<ChunkCoord>,
    stack0: Seq<ChunkCoord>,
)
    requires
        0 <= k < 6,
        grow_closed(records, render, seen0, group0, stack0, Some(coord), k),
        forall|c: ChunkCoord| #[trigger] group0.push(n).contains(c) ==> group0.contains(c) || c == n,
        forall|c: ChunkCoord| #[trigger] seen0.contains(c) ==> seen0.push(n).contains(c),
        ({
            let next = spec_step(coord, spec_face_at(k));
            next is Some && spec_dirty(records, render, next->0) && (spec_face_changes(
                records,
                render,
                coord,
                k,
            ) || spec_face_changes(records, render, next->0, opposite_index(k))) ==> seen0.push(n).contains(
                next->0,
            )
        }),
    ensures
        grow_closed(records, render, seen0.push(n), group0.push(n), stack0.push(n), Some(coord), k + 1),
{
    reveal(grow_closed);
    let seen1 = seen0.push(n);
    let group1 = group0.push(n);
    let stack1 = stack0.push(n);
    assert(stack1.contains(n)) by {
        assert(stack1[stack0.len() as int] == n);
    }
    assert forall|c: ChunkCoord, m: int|
        #[trigger] group1.contains(c) && !stack1.contains(c) && (Some(coord) != Some(c) || m < k + 1) && 0 <= m < 6
            && spec_step(c, spec_face_at(m)) is Some && spec_dirty(
            records,
            render,
            spec_step(c, spec_face_at(m))->0,
        ) && (spec_face_changes(records, render, c, m) || spec_face_changes(
            records,
            render,
            spec_step(c, spec_face_at(m))->0,
            opposite_index(m),
        )) implies #[trigger] seen1.contains(spec_step(c, spec_face_at(m))->0) by {
        if c == coord && m == k {
        } else {
            assert(c != n);
            assert(group0.contains(c));
            assert(!stack0.contains(c)) by {
                if stack0.contains(c) {
                    let j = choose|j: int| 0 <= j < stack0.len() && stack0[j] == c;
                    assert(stack1[j] == c);
                }
            }
            assert(seen0.contains(spec_step(c, spec_face_at(m))->0));
        }
    }
}

proof fn lemma_grow_expand<M>(
    records: Seq<ChunkRecord<M>>,
    render: Set<ChunkCoord>,
    seen_before: Seq<ChunkCoord>,
    start: ChunkCoord,
    coord: ChunkCoord,
    k: int,
    seen0: Seq<ChunkCoord>,
    group0: Seq<ChunkCoord>,
    stack0: Seq<ChunkCoord>,
    seen1: Seq<ChunkCoord>,
    group1: Seq<ChunkCoord>,
    stack1: Seq<ChunkCoord>,
)
    requires
        0 <= k < 6,
        grow_inv(records, render, seen_before, start, seen0, group0, stack0, Some(coord), k),
        ({
            let next = spec_step(coord, spec_face_at(k));
            &&& (seen1 == seen0 && group1 == group0 && stack1 == stack0) || (next is Some && seen1
                == seen0.push(next->0) && group1 == group0.push(next->0) && stack1 == stack0.push(
                next->0,
            ) && !seen0.contains(next->0) && spec_dirty(records, render, next->0) && spec_edge(
                records,
                render,
                coord,
                next->0,
            ))
            &&& next is Some && spec_dirty(records, render, next->0) && (spec_face_changes(
                records,
                render,
                coord,
                k,
            ) || spec_face_changes(records, render, next->0, opposite_index(k))) ==> seen1.contains(
                next->0,
            )
        }),
    ensures
        grow_inv(records, render, seen_before, start, seen1, group1, stack1, Some(coord), k + 1),
        group1.len() >= group0.len(),
        group1.len() == group0.len() ==> stack1 == stack0,
{
    if seen1 == seen0 && group1 == group0 && stack1 == stack0 {
        reveal(grow_closed);
    } else {
        let n = spec_step(coord, spec_face_at(k))->0;
        lemma_shape_push(records, render, seen_before, start, coord, n, seen0, group0, seen1, group1);
        lemma_closed_push(records, render, coord, k, n, seen0, group0, stack0);
        assert forall|c: ChunkCoord| #[trigger] stack1.contains(c) implies group1.contains(c) by {
            let j = choose|j: int| 0 <= j < stack1.len() && stack1[j] == c;
            if j < stack0.len() {
                assert(stack0[j] == c);
                assert(stack0.contains(c));
            }
        }
        assert(group1.contains(coord));
    }
}

proof fn lemma_grow_finish<M>(
    records: Seq<ChunkRecord<M>>,
    render: Set<ChunkCoord>,
    seen_before: Seq<ChunkCoord>,
    start: ChunkCoord,
    seen: Seq<ChunkCoord>,
    group: Seq<ChunkCoord>,
    stack: Seq<ChunkCoord>,
    coord: ChunkCoord,
)
    requires
        grow_inv(records, render, seen_before, start, seen, group, stack, Some(coord), 6),
    ensures
        grow_inv(records, render, seen_before, start, seen, group, stack, None, 0),
{
    reveal(grow_closed);
}

proof fn lemma_group_closed_one<M>(
    records: Seq<ChunkRecord<M>>,
    render: Set<ChunkCoord>,
    seen_before: Seq<ChunkCoord>,
    start: ChunkCoord,
    seen: Seq<ChunkCoord>,
    group: Seq<ChunkCoord>,
    c: ChunkCoord,
    d: ChunkCoord,
)
    requires
        grow_inv(records, render, seen_before, start, seen, group, Seq::empty(), None, 0),
        forall|a: ChunkCoord, b: ChunkCoord|
            #[trigger] seen_before.contains(a) && #[trigger] spec_edge(records, render, a, b)
                ==> seen_before.contains(b),
        group.contains(c),
        spec_edge(records, render, c, d),
    ensures
        group.contains(d),
{
    let k = choose|k: int|
        0 <= k < 6 && #[trigger] spec_step(c, spec_face_at(k)) == Some(d) && (spec_face_changes(
            records,
            render,
            c,
            k,
        ) || spec_face_changes(records, render, d, opposite_index(k)));
    assert(seen.contains(d)) by {
        reveal(grow_closed);
        assert(!Seq::<ChunkCoord>::empty().contains(c));
        assert(seen.contains(spec_step(c, spec_face_at(k))->0));
    }
    reveal(grow_shape);
    if seen_before.contains(d) {
        lemma_edge_symmetric(records, render, c, d);
        assert(seen_before.contains(c));
    }
    let j = choose|j: int| 0 <= j < seen.len() && seen[j] == d;
    if j < seen_before.len() {
        assert(seen_before[j] == d);
    } else {
        assert(group[j - seen_before.len()] == d);
    }
}

proof fn lemma_group_closed<M>(
    records: Seq<ChunkRecord<M>>,
    render: Set<ChunkCoord>,
    seen_before: Seq<ChunkCoord>,
    start: ChunkCoord,
    seen: Seq<ChunkCoord>,
    group: Seq<ChunkCoord>,
)
    requires
        grow_inv(records, render, seen_before, start, seen, group, Seq::empty(), None, 0),
        forall|c: ChunkCoord, d: ChunkCoord|
            #[trigger] seen_before.contains(c) && #[trigger] spec_edge(records, render, c, d)
                ==> seen_before.contains(d),
    ensures
        forall|c: ChunkCoord, d: ChunkCoord|
            #[trigger] group.contains(c) && #[trigger] spec_edge(records, render, c, d) ==> group.contains(d),
{
    assert forall|c: ChunkCoord, d: ChunkCoord|
        #[trigger] group.contains(c) && #[trigger] spec_edge(records, render, c, d) implies group.contains(d) by {
        lemma_group_closed_one(records, render, seen_before, start, seen, group, c, d);
    }
}

proof fn lemma_group_first(
    dirty: Seq<ChunkCoord>,
    s: int,
    seen_before: Seq<ChunkCoord>,
    group: Seq<ChunkCoord>,
    sorted: Seq<ChunkCoord>,
)
    requires
        coords_sorted(dirty),
        0 <= s < dirty.len(),
        forall|t: int| 0 <= t < s ==> seen_before.contains(#[trigger] dirty[t]),
        forall|c: ChunkCoord| #[trigger] group.contains(c) ==> dirty.contains(c) && !seen_before.contains(c),
        group.contains(dirty[s]),
        coords_sorted(sorted),
        forall|c: ChunkCoord| #[trigger] sorted.contains(c) <==> group.contains(c),
    ensures
        sorted.len() > 0,
        sorted[0] == dirty[s],
{
    let start = dirty[s];
    assert(sorted.contains(start));
    let j = choose|j: int| 0 <= j < sorted.len() && sorted[j] == start;
    if j != 0 {
        let first = sorted[0];
        assert(sorted.contains(first));
        assert(coord_lt(first, start));
        assert(dirty.contains(first));
        let t = choose|t: int| 0 <= t < dirty.len() && dirty[t] == first;
        if t < s {
            assert(seen_before.contains(dirty[t]));
        } else if t > s {
            assert(coord_lt(dirty[s], dirty[t]));
        }
    }
}

/// Single-worker owner of CPU chunk residency and mesh bookkeeping.
pub struct StreamingRuntime<M> {
    config: StreamingConfig,
    center: ChunkCoord,
    demand: DemandSets,
    records: Vec<ChunkRecord<M>>,
    next_token: u64,
    reserved_load_slots: Vec<RequestToken>,
    load_queue: Vec<LoadQueueEntry>,
    mesh_queue: Vec<MeshQueueEntry>,
    consecutive_mesh_dispatches: u8,
    in_flight: Option<InFlight>,
    metrics: RuntimeMetrics,
}

impl<M> StreamingRuntime<M> {
    pub closed spec fn spec_records(&self) -> Seq<ChunkRecord<M>> {
        self.records@
    }

    /// Records are held in ascending coordinate order.
    pub closed spec fn ordered(&self) -> bool {
        records_sorted(self.records@)
    }

    pub closed spec fn spec_config(&self) -> StreamingConfig {
        self.config
    }

    pub closed spec fn spec_center(&self) -> ChunkCoord {
        self.center
    }

    pub closed spec fn spec_demand(&self) -> DemandSets {
        self.demand
    }

    pub closed spec fn spec_render(&self) -> Set<ChunkCoord> {
        coord_set(self.demand.render@)
    }

    pub closed spec fn spec_dependency(&self) -> Set<ChunkCoord> {
        coord_set(self.demand.dependency@)
    }

    pub closed spec fn spec_retention(&self) -> Set<ChunkCoord> {
        coord_set(self.demand.retention@)
    }

    pub closed spec fn spec_reserved(&self) -> Seq<RequestToken> {
        self.reserved_load_slots@
    }

    pub closed spec fn spec_next_token(&self) -> u64 {
        self.next_token
    }

    pub closed spec fn spec_load_queue(&self) -> Seq<LoadQueueEntry> {
        self.load_queue@
    }

    pub closed spec fn spec_mesh_queue(&self) -> Seq<MeshQueueEntry> {
        self.mesh_queue@
    }

    pub closed spec fn spec_in_flight(&self) -> Option<InFlight> {
        self.in_flight
    }

    pub closed spec fn spec_metrics(&self) -> RuntimeMetrics {
        self.metrics
    }

    pub closed spec fn spec_consecutive_meshes(&self) -> u8 {
        self.consecutive_mesh_dispatches
    }

    /// The record tracked for a coordinate.
    pub open spec fn record_of(&self, coord: ChunkCoord) -> Option<ChunkRecord<M>> {
        spec_record(self.spec_records(), coord)
    }

    /// The chunks owned plus the loads reserved: what the hard cap bounds.
    pub open spec fn committed_residency(&self) -> nat {
        count_records(self.spec_records(), Tally::Payload) + self.spec_reserved().len()
    }

    /// The runtime's standing invariant: [`Self::wf_core`], and every record
    /// not retiring lies in the retention set.
    pub open spec fn wf(&self) -> bool {
        &&& self.wf_core()
        &&& self.retained()
    }

    /// Every record not retiring lies in the retention set.
    pub closed spec fn retained(&self) -> bool {
        let records = self.records@;
        forall|i: int|
            0 <= i < records.len() && !((#[trigger] records[i]).residency is EvictPending)
                ==> coord_set(self.demand.retention@).contains(records[i].coord)
    }

    /// The configuration is valid and the demand sets are those of the
    /// center; records are unique and ordered, carry distinct tokens older
    /// than the next one, and every loading record holds a reserved slot; the
    /// chunks owned plus the slots reserved never exceed the hard cap.
    pub closed spec fn wf_core(&self) -> bool {
        let records = self.records@;
        &&& spec_validate(self.config) == Ok::<StreamingConfig, DemandError>(self.config)
        &&& self.demand.render@.no_duplicates()
        &&& self.demand.dependency@.no_duplicates()
        &&& self.demand.retention@.no_duplicates()
        &&& spec_around(self.center, self.config) == Ok::<_, DemandError>(
            (
                coord_set(self.demand.render@),
                coord_set(self.demand.dependency@),
                coord_set(self.demand.retention@),
            ),
        )
        &&& records_sorted(records)
        &&& self.next_token >= 1
        &&& forall|i: int| 0 <= i < records.len() ==> (#[trigger] records[i]).token.0 < self.next_token
        &&& forall|i: int, j: int|
            0 <= i < j < records.len() ==> (#[trigger] records[i]).token != (#[trigger] records[j]).token
        &&& forall|i: int|
            0 <= i < records.len() && (#[trigger] records[i]).residency is Loading
                ==> self.reserved_load_slots@.contains(records[i].token)
        &&& self.reserved_load_slots@.no_duplicates()
        &&& count_records(records, Tally::Payload) + self.reserved_load_slots@.len()
            <= self.config.hard_resident_cap
    }

    /// Every coordinate of the dependency set has a live record.
    pub open spec fn covers_dependency(&self) -> bool {
        forall|coord: ChunkCoord|
            #[trigger] self.spec_dependency().contains(coord) ==> {
                &&& self.record_of(coord) is Some
                &&& !(self.record_of(coord)->0.residency is EvictPending)
            }
    }


    /// A runtime that differs from a well-formed one only in meshes is
    /// well formed.
    proof fn lemma_mesh_frame(a: &Self, b: &Self)
        requires
            a.wf_core(),
            mesh_frame(a, b),
        ensures
            b.wf_core(),
            a.retained() ==> b.retained(),
    {
        lemma_count_same_residency(a.records@, b.records@);
        let (ra, rb) = (a.records@, b.records@);
        assert forall|i: int, j: int| 0 <= i < j < rb.len() implies coord_lt(
            #[trigger] rb[i].coord,
            #[trigger] rb[j].coord,
        ) by {
            assert(coord_lt(ra[i].coord, ra[j].coord));
        }
        assert forall|i: int, j: int| 0 <= i < j < rb.len() implies (#[trigger] rb[i]).token != (
        #[trigger] rb[j]).token by {
            assert(ra[i].token != ra[j].token);
        }
        assert forall|i: int| 0 <= i < rb.len() implies (#[trigger] rb[i]).token.0 < b.next_token by {
            assert(ra[i].token.0 < a.next_token);
        }
        assert forall|i: int|
            0 <= i < rb.len() && (#[trigger] rb[i]).residency is Loading implies b.reserved_load_slots@.contains(
            rb[i].token,
        ) by {
            assert(ra[i].residency is Loading);
        }
        if a.retained() {
            assert forall|i: int|
                0 <= i < rb.len() && !((#[trigger] rb[i]).residency is EvictPending) implies coord_set(
                b.demand.retention@,
            ).contains(rb[i].coord) by {
                assert(!(ra[i].residency is EvictPending));
            }
        }
    }

    /// The level a coordinate is given at its distance from the center.
    pub fn select_lod(&self, coord: ChunkCoord, previous: Option<LodLevel>) -> (lod: LodLevel)
        ensures
            lod == spec_lod_at(self.spec_config(), self.spec_center(), coord, previous),
    {
        self.config.lod_selection.select(chebyshev_distance(coord, self.center), previous)
    }

    /// Squared distance from the demand center: nearer work goes first.
    pub fn priority(&self, coord: ChunkCoord) -> (squared: u128)
        ensures
            squared == spec_squared(coord, self.spec_center()),
    {
        let x = axis_distance(coord.x, self.center.x);
        let y = axis_distance(coord.y, self.center.y);
        let z = axis_distance(coord.z, self.center.z);
        proof {
            let (gx, gy, gz) = (
                spec_axis_gap(coord.x, self.center.x),
                spec_axis_gap(coord.y, self.center.y),
                spec_axis_gap(coord.z, self.center.z),
            );
            assert(gx * gx <= 0x1_0000_0000 * 0x1_0000_0000) by (nonlinear_arith)
                requires
                    0 <= gx <= 0x1_0000_0000,
            ;
            assert(gy * gy <= 0x1_0000_0000 * 0x1_0000_0000) by (nonlinear_arith)
                requires
                    0 <= gy <= 0x1_0000_0000,
            ;
            assert(gz * gz <= 0x1_0000_0000 * 0x1_0000_0000) by (nonlinear_arith)
                requires
                    0 <= gz <= 0x1_0000_0000,
            ;
        }
        x + y + z
    }

    /// What the neighbor across `face` contributes to the mesh of `coord`.
    pub fn neighbor_stamp(&self, coord: ChunkCoord, face: Face) -> (stamp: Option<NeighborStamp>)
        requires
            self.ordered(),
        ensures
            stamp == spec_neighbor_stamp(self.spec_records(), self.spec_render(), coord, face),
    {
        let i = match self.find(coord) {
            Some(i) => i,
            None => return None,
        };
        let next = match coord.neighbor(face) {
            Some(next) => next,
            None => return None,
        };
        let j = match self.find(next) {
            Some(j) => j,
            None => return None,
        };
        let neighbor = &self.records[j];
        match &neighbor.residency {
            ResidencyState::CpuResident { content_generation, .. } => {
                let presentation = if holds_coord(&self.demand.render, next) {
                    NeighborPresentation::Rendered(neighbor.lod)
                } else {
                    NeighborPresentation::ContentOnly
                };
                Some(
                    NeighborStamp::Resident {
                        coord: next,
                        token: neighbor.token,
                        content_generation: *content_generation,
                        seam: SeamContract::derive(self.records[i].lod, presentation),
                    },
                )
            },
            ResidencyState::KnownAbsent => Some(
                NeighborStamp::KnownAbsent { coord: next, token: neighbor.token },
            ),
            _ => None,
        }
    }

    /// The stamp a mesh of `coord` would be built for now, if it can be built.
    pub fn current_mesh_stamp(&self, coord: ChunkCoord) -> (target: Option<MeshStamp>)
        requires
            self.ordered(),
        ensures
            spec_target(self.spec_records(), self.spec_render(), coord, target),
    {
        let ghost render = coord_set(self.demand.render@);
        let i = match self.find(coord) {
            Some(i) => i,
            None => return None,
        };
        let content_generation = match &self.records[i].residency {
            ResidencyState::CpuResident { content_generation, .. } => *content_generation,
            _ => return None,
        };
        let token = self.records[i].token;
        let mut neighbors = [NeighborStamp::KnownAbsent { coord, token };6];
        let mut k: usize = 0;
        while k < 6
            invariant
                records_sorted(self.records@),
                render == coord_set(self.demand.render@),
                k <= 6,
                forall|m: int|
                    0 <= m < k ==> Some(#[trigger] neighbors[m]) == spec_neighbor_stamp(
                        self.records@,
                        render,
                        coord,
                        spec_face_at(m),
                    ),
            decreases 6 - k,
        {
            let face = Face::from_index(k);
            proof {
                assert(face == spec_face_at(k as int));
            }
            match self.neighbor_stamp(coord, face) {
                Some(stamp) => {
                    neighbors[k] = stamp;
                },
                None => {
                    proof {
                        assert(spec_neighbor_stamp(self.records@, render, coord, spec_face_at(k as int))
                            is None);
                    }
                    return None;
                },
            }
            k = k + 1;
        }
        proof {
            assert forall|m: int| 0 <= m < 6 implies (#[trigger] spec_neighbor_stamp(
                self.records@,
                render,
                coord,
                spec_face_at(m),
            )) is Some by {
                assert(Some(neighbors[m]) == spec_neighbor_stamp(
                    self.records@,
                    render,
                    coord,
                    spec_face_at(m),
                ));
            }
        }
        let record = &self.records[i];
        Some(
            MeshStamp {
                coord,
                request_token: record.token,
                lod: record.lod,
                mesh_generation: record.mesh_generation,
                center_content_generation: content_generation,
                neighbors,
            },
        )
    }

    /// Hands out the next request token.
    fn allocate_token(&mut self) -> (result: Result<RequestToken, RuntimeError>)
        ensures
            match result {
                Ok(token) => token.0 == old(self).next_token && final(self).next_token
                    == old(self).next_token + 1,
                Err(error) => error == RuntimeError::RequestTokenExhausted && old(self).next_token
                    == u64::MAX && final(self).next_token == old(self).next_token,
            },
            final(self).records@ == old(self).records@,
            final(self).config == old(self).config,
            final(self).center == old(self).center,
            final(self).demand == old(self).demand,
            final(self).reserved_load_slots@ == old(self).reserved_load_slots@,
            final(self).load_queue@ == old(self).load_queue@,
            final(self).mesh_queue@ == old(self).mesh_queue@,
            final(self).in_flight == old(self).in_flight,
            final(self).consecutive_mesh_dispatches == old(self).consecutive_mesh_dispatches,
            final(self).metrics == old(self).metrics,
    {
        let token = RequestToken(self.next_token);
        match self.next_token.checked_add(1) {
            Some(next) => {
                self.next_token = next;
                Ok(token)
            },
            None => Err(RuntimeError::RequestTokenExhausted),
        }
    }


    /// Marks the mesh of `coord` out of date for `cause`: its generation moves
    /// on, and the record is left as [`spec_invalidated`] describes, queued
    /// for meshing when it is dirty. Nothing else changes but counters.
    pub fn invalidate_mesh(&mut self, coord: ChunkCoord, cause: InvalidationCause) -> (result: Result<(), RuntimeError>)
        requires
            old(self).wf_core(),
        ensures
            final(self).wf_core(),
            mesh_frame(&*old(self), &*final(self)),
            match old(self).record_of(coord) {
                None => final(self).spec_records() == old(self).spec_records() && final(self).spec_mesh_queue()
                    == old(self).spec_mesh_queue() && result is Ok,
                Some(record) => match result {
                    Err(error) => error == (RuntimeError::GenerationExhausted {
                        coord,
                        kind: "mesh",
                    }) && record.mesh_generation == u64::MAX,
                    Ok(()) => record.mesh_generation < u64::MAX && if !old(self).spec_render().contains(coord)
                        || !(record.residency is CpuResident) {
                        &&& final(self).record_of(coord) == Some(
                            spec_invalidated(record, cause, old(self).spec_render().contains(coord), None),
                        )
                        &&& final(self).spec_mesh_queue() == old(self).spec_mesh_queue()
                    } else {
                        exists|target: Option<MeshStamp>|
                        #![trigger spec_target(final(self).spec_records(), old(self).spec_render(), coord, target)]
                        spec_target(final(self).spec_records(), old(self).spec_render(), coord, target)
                            && final(self).record_of(coord) == Some(
                            spec_invalidated(record, cause, old(self).spec_render().contains(coord), target),
                        ) && match spec_invalidated(
                            record,
                            cause,
                            old(self).spec_render().contains(coord),
                            target,
                        ).mesh {
                            MeshState::Dirty(stamp) => final(self).spec_mesh_queue().len()
                                == old(self).spec_mesh_queue().len() + 1 && final(self).spec_mesh_queue().last()
                                == (MeshQueueEntry {
                                rank: if stamp.lod == LodLevel::Lod0 {
                                    0
                                } else {
                                    1
                                },
                                squared: spec_squared(coord, old(self).spec_center()) as u128,
                                coord,
                                token: stamp.request_token,
                                mesh_generation: stamp.mesh_generation,
                                lod: stamp.lod,
                            }) && final(self).spec_mesh_queue().drop_last() == old(self).spec_mesh_queue(),
                            _ => final(self).spec_mesh_queue() == old(self).spec_mesh_queue(),
                        }
                    },
                },
            },
            forall|other: ChunkCoord|
                other != coord ==> #[trigger] final(self).record_of(other) == old(self).record_of(
                    other,
                ),
            final(self).spec_metrics() == spec_invalidation_metrics(
                old(self).spec_metrics(),
                old(self).record_of(coord),
                final(self).record_of(coord),
                result is Ok,
            ),
    {
        let ghost before = *old(self);
        let i = match self.find(coord) {
            Some(i) => i,
            None => return Ok(()),
        };
        let ghost record = self.records@[i as int];
        self.records[i].last_invalidation = Some(cause);
        let generation = match self.records[i].mesh_generation.checked_add(1) {
            Some(generation) => generation,
            None => {
                proof {
                    lemma_record_update(before.records@, i as int, self.records@[i as int]);
                    assert(self.records@ =~= before.records@.update(i as int, self.records@[i as int]));
                    Self::lemma_mesh_frame(&before, self);
                }
                return Err(RuntimeError::GenerationExhausted { coord, kind: "mesh" });
            },
        };
        self.records[i].mesh_generation = generation;
        let member = holds_coord(&self.demand.render, coord);
        let resident = match self.records[i].residency {
            ResidencyState::CpuResident { .. } => true,
            _ => false,
        };
        if !member || !resident {
            if self.records[i].committed.is_some() {
                self.records[i].committed = None;
                self.metrics.committed_dropped = self.metrics.committed_dropped.wrapping_add(1);
            }
            let waiting = member && match self.records[i].residency {
                ResidencyState::LoadQueued | ResidencyState::Loading => true,
                _ => false,
            };
            self.records[i].mesh = if waiting {
                MeshState::WaitingForNeighbors
            } else {
                MeshState::NotRequired
            };
            proof {
                let updated = self.records@[i as int];
                assert(updated == spec_invalidated(record, cause, member, None));
                lemma_record_update(before.records@, i as int, updated);
                assert(self.records@ =~= before.records@.update(i as int, updated));
                Self::lemma_mesh_frame(&before, self);
            }
            return Ok(());
        }
        self.records[i].mesh = MeshState::WaitingForNeighbors;
        let target = self.current_mesh_stamp(coord);
        let ghost mid = self.records@;
        let kept = match &self.records[i].committed {
            Some(committed) => cause_is_presentation_only(cause) && match &target {
                Some(stamp) => committed.stamp.differs_only_by_presentation(stamp),
                None => false,
            },
            None => false,
        };
        if self.records[i].committed.is_some() {
            if kept {
                self.metrics.committed_retained = self.metrics.committed_retained.wrapping_add(1);
            } else {
                self.records[i].committed = None;
                self.metrics.committed_dropped = self.metrics.committed_dropped.wrapping_add(1);
            }
        }
        match target {
            Some(stamp) => {
                let drawn = match &self.records[i].committed {
                    Some(committed) => same_stamp(
                        &committed.stamp.geometry_key(),
                        &stamp.geometry_key(),
                    ),
                    None => false,
                };
                if drawn {
                    self.records[i].mesh = MeshState::Committed;
                } else {
                    self.records[i].mesh = MeshState::Dirty(stamp);
                    let rank: u8 = match stamp.lod {
                        LodLevel::Lod0 => 0,
                        LodLevel::Lod1 => 1,
                    };
                    let squared = self.priority(coord);
                    self.mesh_queue.push(
                        MeshQueueEntry {
                            rank,
                            squared,
                            coord,
                            token: stamp.request_token,
                            mesh_generation: stamp.mesh_generation,
                            lod: stamp.lod,
                        },
                    );
                }
            },
            None => {},
        }
        proof {
            let updated = self.records@[i as int];
            assert(updated == spec_invalidated(record, cause, member, target));
            assert(same_stamp_inputs(mid, self.records@));
            lemma_target_frame(mid, self.records@, coord_set(self.demand.render@), coord, target);
            lemma_record_update(before.records@, i as int, updated);
            assert(self.records@ =~= before.records@.update(i as int, updated));
            Self::lemma_mesh_frame(&before, self);
        }
        Ok(())
    }


    /// Dropping a record from a well-formed runtime leaves it well formed:
    /// the chunks owned can only fall.
    proof fn lemma_wf_remove(a: &Self, b: &Self, i: int)
        requires
            a.wf_core(),
            0 <= i < a.records@.len(),
            b.records@ == a.records@.remove(i),
            b.config == a.config,
            b.center == a.center,
            b.demand == a.demand,
            b.next_token == a.next_token,
            b.reserved_load_slots@ == a.reserved_load_slots@,
        ensures
            b.wf_core(),
            a.retained() ==> b.retained(),
    {
        let (ra, rb) = (a.records@, b.records@);
        lemma_record_remove(ra, i);
        lemma_count_remove(ra, Tally::Payload, i);
        assert forall|x: int| 0 <= x < rb.len() implies #[trigger] rb[x] == ra[if x < i {
            x
        } else {
            x + 1
        }] by {}
        assert forall|x: int| 0 <= x < rb.len() implies (#[trigger] rb[x]).token.0 < b.next_token by {
            let y = if x < i { x } else { x + 1 };
            assert(rb[x] == ra[y]);
        }
        assert forall|x: int, y: int| 0 <= x < y < rb.len() implies (#[trigger] rb[x]).token != (
        #[trigger] rb[y]).token by {
            let (p, q) = (if x < i { x } else { x + 1 }, if y < i { y } else { y + 1 });
            assert(rb[x] == ra[p] && rb[y] == ra[q]);
        }
        assert forall|x: int|
            0 <= x < rb.len() && (#[trigger] rb[x]).residency is Loading implies b.reserved_load_slots@.contains(
            rb[x].token,
        ) by {
            let y = if x < i { x } else { x + 1 };
            assert(rb[x] == ra[y]);
        }
        if a.retained() {
            assert forall|x: int|
                0 <= x < rb.len() && !((#[trigger] rb[x]).residency is EvictPending) implies coord_set(
                b.demand.retention@,
            ).contains(rb[x].coord) by {
                let y = if x < i { x } else { x + 1 };
                assert(rb[x] == ra[y]);
            }
        }
    }

    /// Replacing a record by one for the same coordinate and token, which
    /// loads only if the old one did and owns a chunk only if the old one
    /// did, keeps the core invariant.
    proof fn lemma_wf_update(a: &Self, b: &Self, i: int, record: ChunkRecord<M>)
        requires
            a.wf_core(),
            0 <= i < a.records@.len(),
            b.records@ == a.records@.update(i, record),
            record.coord == a.records@[i].coord,
            record.token == a.records@[i].token,
            record.residency is Loading ==> a.records@[i].residency is Loading,
            holds_payload(record.residency) ==> holds_payload(a.records@[i].residency),
            b.config == a.config,
            b.center == a.center,
            b.demand == a.demand,
            b.next_token == a.next_token,
            b.reserved_load_slots@ == a.reserved_load_slots@,
        ensures
            b.wf_core(),
            a.retained() && (!(record.residency is EvictPending) ==> !(a.records@[i].residency is EvictPending)) ==> b.retained(),
    {
        let (ra, rb) = (a.records@, b.records@);
        lemma_record_update(ra, i, record);
        lemma_count_update(ra, Tally::Payload, i, record);
        assert forall|x: int| 0 <= x < rb.len() implies (#[trigger] rb[x]).token.0 < b.next_token by {
            assert(ra[x].token == rb[x].token);
        }
        assert forall|x: int, y: int| 0 <= x < y < rb.len() implies (#[trigger] rb[x]).token != (
        #[trigger] rb[y]).token by {
            assert(ra[x].token == rb[x].token && ra[y].token == rb[y].token);
        }
        assert forall|x: int|
            0 <= x < rb.len() && (#[trigger] rb[x]).residency is Loading implies b.reserved_load_slots@.contains(
            rb[x].token,
        ) by {
            assert(ra[x].residency is Loading);
        }
        if a.retained() && (!(record.residency is EvictPending) ==> !(ra[i].residency is EvictPending)) {
            assert forall|x: int|
                0 <= x < rb.len() && !((#[trigger] rb[x]).residency is EvictPending) implies coord_set(
                b.demand.retention@,
            ).contains(rb[x].coord) by {
                assert(!(ra[x].residency is EvictPending));
            }
        }
    }

    /// Adding a fresh queued record where it belongs, with the next token
    /// and a coordinate the runtime retains, leaves a runtime well formed.
    proof fn lemma_wf_insert(a: &Self, b: &Self, position: int, record: ChunkRecord<M>)
        requires
            a.wf(),
            insertion_point(a.records@, record.coord, position),
            b.records@ == a.records@.insert(position, record),
            record.token.0 == a.next_token,
            b.next_token == a.next_token + 1,
            record.residency is LoadQueued,
            coord_set(a.demand.retention@).contains(record.coord),
            b.config == a.config,
            b.center == a.center,
            b.demand == a.demand,
            b.reserved_load_slots@ == a.reserved_load_slots@,
        ensures
            b.wf(),
    {
        let (ra, rb) = (a.records@, b.records@);
        lemma_record_insert(ra, position, record);
        lemma_count_insert(ra, Tally::Payload, position, record);
        assert forall|x: int| 0 <= x < rb.len() implies #[trigger] rb[x] == if x < position {
            ra[x]
        } else if x == position {
            record
        } else {
            ra[x - 1]
        } by {}
        assert forall|x: int| 0 <= x < rb.len() implies (#[trigger] rb[x]).token.0 < b.next_token by {
            if x < position {
                assert(rb[x] == ra[x]);
            } else if x > position {
                assert(rb[x] == ra[x - 1]);
            }
        }
        assert forall|x: int, y: int| 0 <= x < y < rb.len() implies (#[trigger] rb[x]).token != (
        #[trigger] rb[y]).token by {
            if x != position && y != position {
                let p = if x < position { x } else { x - 1 };
                let q = if y < position { y } else { y - 1 };
                assert(rb[x] == ra[p] && rb[y] == ra[q]);
            } else if x == position {
                assert(rb[y] == ra[y - 1]);
            } else {
                assert(rb[x] == ra[x]);
            }
        }
        assert forall|x: int|
            0 <= x < rb.len() && (#[trigger] rb[x]).residency is Loading implies b.reserved_load_slots@.contains(
            rb[x].token,
        ) by {
            if x < position {
                assert(rb[x] == ra[x]);
            } else if x > position {
                assert(rb[x] == ra[x - 1]);
            }
        }
        assert forall|x: int|
            0 <= x < rb.len() && !((#[trigger] rb[x]).residency is EvictPending) implies coord_set(
            b.demand.retention@,
        ).contains(rb[x].coord) by {
            if x < position {
                assert(rb[x] == ra[x]);
            } else if x > position {
                assert(rb[x] == ra[x - 1]);
            }
        }
    }

    /// Where a record for an untracked coordinate belongs.
    fn insert_position(&self, coord: ChunkCoord) -> (position: usize)
        requires
            records_sorted(self.records@),
            !has_coord(self.records@, coord),
        ensures
            insertion_point(self.records@, coord, position as int),
    {
        let mut i: usize = 0;
        while i < self.records.len()
            invariant
                records_sorted(self.records@),
                !has_coord(self.records@, coord),
                i <= self.records@.len(),
                forall|k: int| 0 <= k < i ==> coord_lt(#[trigger] self.records@[k].coord, coord),
            decreases self.records@.len() - i,
        {
            if coord_less(coord, self.records[i].coord) {
                proof {
                    assert forall|k: int| i <= k < self.records@.len() implies coord_lt(
                        coord,
                        #[trigger] self.records@[k].coord,
                    ) by {
                        if k > i {
                            assert(coord_lt(self.records@[i as int].coord, self.records@[k].coord));
                        }
                    }
                }
                return i;
            }
            proof {
                assert(self.records@[i as int].coord != coord);
            }
            i = i + 1;
        }
        i
    }

    /// Invalidates the mesh of one coordinate, stated as one invalidation of
    /// its record and nothing else.
    fn invalidate_one(&mut self, coord: ChunkCoord, cause: InvalidationCause) -> (result: Result<(), RuntimeError>)
        requires
            old(self).wf_core(),
        ensures
            final(self).wf_core(),
            mesh_frame(&*old(self), &*final(self)),
            forall|other: ChunkCoord|
                other != coord ==> #[trigger] final(self).record_of(other) == old(self).record_of(other),
            result is Ok <==> (old(self).record_of(coord) is Some ==> old(self).record_of(coord)->0.mesh_generation
                < u64::MAX),
            result is Ok ==> spec_invalidated_once(
                old(self).record_of(coord),
                final(self).record_of(coord),
                cause,
                old(self).spec_render().contains(coord),
            ),
            result is Err ==> result->Err_0 == (RuntimeError::GenerationExhausted { coord, kind: "mesh" }),
    {
        let ghost before = *self;
        let outcome = self.invalidate_mesh(coord, cause);
        proof {
            reveal(spec_invalidated_once);
            if outcome is Ok {
                let member = before.spec_render().contains(coord);
                match before.record_of(coord) {
                    None => {},
                    Some(record) => {
                        if !member || !(record.residency is CpuResident) {
                            assert(self.record_of(coord) == Some(spec_invalidated(record, cause, member, None)));
                        } else {
                            let target = choose|target: Option<MeshStamp>|
                                #[trigger] spec_target(self.spec_records(), before.spec_render(), coord, target)
                                    && self.record_of(coord) == Some(spec_invalidated(record, cause, member, target));
                            assert(self.record_of(coord) == Some(spec_invalidated(record, cause, member, target)));
                            assert(target is None || target->0.lod == record.lod);
                        }
                    },
                }
            }
        }
        outcome
    }

    /// Invalidates the mesh of `coord` and then the meshes of its six
    /// neighbors for `cause`, stopping at the first exhausted generation.
    fn invalidate_around(&mut self, coord: ChunkCoord, cause: InvalidationCause) -> (result: Result<(), RuntimeError>)
        requires
            old(self).wf_core(),
        ensures
            final(self).wf_core(),
            mesh_frame(&*old(self), &*final(self)),
            forall|other: ChunkCoord|
                other != coord && !spec_neighbor_before(coord, other, 6) ==> #[trigger] final(self).record_of(other)
                    == old(self).record_of(other),
            result is Ok <==> spec_mesh_invalidable(&*old(self), old(self).record_of(coord), coord),
            result is Ok ==> spec_invalidated_around(
                &*old(self),
                old(self).record_of(coord),
                &*final(self),
                coord,
                cause,
            ),
            result is Err ==> result->Err_0 is GenerationExhausted,
    {
        let ghost start = *self;
        proof {
            lemma_not_own_neighbor(coord);
        }
        let outcome = self.invalidate_one(coord, cause);
        if outcome.is_err() {
            return outcome;
        }
        let ghost middle = *self;
        let outcome = self.invalidate_neighbors(coord, cause);
        proof {
            Self::lemma_mesh_frame_trans(&start, &middle, &*self);
            assert(start.spec_render() == middle.spec_render());
            assert forall|other: ChunkCoord| #[trigger] spec_neighbor_before(coord, other, 6) implies middle.record_of(
                other,
            ) == start.record_of(other) by {}
            if outcome is Ok {
                assert(self.record_of(coord) == middle.record_of(coord));
            } else {
                let other = choose|other: ChunkCoord|
                    #[trigger] spec_neighbor_before(coord, other, 6) && middle.record_of(other) is Some
                        && middle.record_of(other)->0.mesh_generation == u64::MAX;
                assert(start.record_of(other) == middle.record_of(other));
            }
        }
        outcome
    }

    /// Invalidates the meshes of the six neighbors of `coord`, in face
    /// order, stopping at the first neighbor whose mesh generation is
    /// exhausted. Every neighbor with a record is invalidated once for
    /// `cause`; nothing else changes.
    pub fn invalidate_neighbors(&mut self, coord: ChunkCoord, cause: InvalidationCause) -> (result: Result<(), RuntimeError>)
        requires
            old(self).wf_core(),
        ensures
            final(self).wf_core(),
            mesh_frame(&*old(self), &*final(self)),
            forall|other: ChunkCoord|
                !spec_neighbor_before(coord, other, 6) ==> #[trigger] final(self).record_of(other) == old(
                    self,
                ).record_of(other),
            result is Ok <==> forall|other: ChunkCoord|
                #[trigger] spec_neighbor_before(coord, other, 6) && old(self).record_of(other) is Some
                    ==> old(self).record_of(other)->0.mesh_generation < u64::MAX,
            result is Ok ==> forall|other: ChunkCoord|
                #[trigger] spec_neighbor_before(coord, other, 6) ==> spec_invalidated_once(
                    old(self).record_of(other),
                    final(self).record_of(other),
                    cause,
                    old(self).spec_render().contains(other),
                ),
            result is Err ==> exists|other: ChunkCoord|
                #[trigger] spec_neighbor_before(coord, other, 6) && old(self).record_of(other) is Some
                    && old(self).record_of(other)->0.mesh_generation == u64::MAX && result->Err_0 == (
                RuntimeError::GenerationExhausted { coord: other, kind: "mesh" }),
    {
        let mut k: usize = 0;
        while k < 6
            invariant
                self.wf_core(),
                mesh_frame(&*old(self), &*self),
                k <= 6,
                forall|other: ChunkCoord|
                    !spec_neighbor_before(coord, other, k as int) ==> #[trigger] self.record_of(other) == old(
                        self,
                    ).record_of(other),
                forall|other: ChunkCoord|
                    #[trigger] spec_neighbor_before(coord, other, k as int) ==> (old(self).record_of(other) is Some
                        ==> old(self).record_of(other)->0.mesh_generation < u64::MAX) && spec_invalidated_once(
                        old(self).record_of(other),
                        self.record_of(other),
                        cause,
                        old(self).spec_render().contains(other),
                    ),
            decreases 6 - k,
        {
            let face = Face::from_index(k);
            proof {
                lemma_face_at_index(face, k as int);
            }
            match coord.neighbor(face) {
                Some(next) => {
                    let ghost before = *self;
                    proof {
                        lemma_neighbors_distinct(coord, k as int);
                        assert(!spec_neighbor_before(coord, next, k as int));
                        assert(self.record_of(next) == old(self).record_of(next));
                    }
                    let outcome = self.invalidate_one(next, cause);
                    proof {
                        Self::lemma_mesh_frame_trans(&*old(self), &before, &*self);
                        assert(spec_step(coord, spec_face_at(k as int)) == Some(next));
                        assert(spec_neighbor_before(coord, next, k + 1));
                    }
                    if outcome.is_err() {
                        proof {
                            assert(spec_neighbor_before(coord, next, 6)) by {
                                assert(0 <= k < 6 && spec_step(coord, spec_face_at(k as int)) == Some(next));
                            }
                            assert forall|other: ChunkCoord|
                                !spec_neighbor_before(coord, other, 6) implies #[trigger] self.record_of(other)
                                == old(self).record_of(other) by {
                                assert(other != next);
                                assert(!spec_neighbor_before(coord, other, k as int)) by {
                                    if spec_neighbor_before(coord, other, k as int) {
                                        let j = choose|j: int|
                                            0 <= j < k && #[trigger] spec_step(coord, spec_face_at(j)) == Some(other);
                                        assert(0 <= j < 6 && spec_step(coord, spec_face_at(j)) == Some(other));
                                    }
                                }
                            }
                        }
                        return outcome;
                    }
                    proof {
                        assert(old(self).spec_render() == before.spec_render());
                        assert forall|other: ChunkCoord|
                            !spec_neighbor_before(coord, other, k + 1) implies #[trigger] self.record_of(other)
                            == old(self).record_of(other) by {
                            assert(other != next);
                            assert(!spec_neighbor_before(coord, other, k as int)) by {
                                if spec_neighbor_before(coord, other, k as int) {
                                    let j = choose|j: int|
                                        0 <= j < k && #[trigger] spec_step(coord, spec_face_at(j)) == Some(other);
                                    assert(0 <= j < k + 1 && spec_step(coord, spec_face_at(j)) == Some(other));
                                }
                            }
                        }
                        assert forall|other: ChunkCoord| #[trigger] spec_neighbor_before(coord, other, k + 1) implies (old(
                            self,
                        ).record_of(other) is Some ==> old(self).record_of(other)->0.mesh_generation < u64::MAX)
                            && spec_invalidated_once(
                            old(self).record_of(other),
                            self.record_of(other),
                            cause,
                            old(self).spec_render().contains(other),
                        ) by {
                            if other != next {
                                let j = choose|j: int|
                                    0 <= j < k + 1 && #[trigger] spec_step(coord, spec_face_at(j)) == Some(other);
                                assert(j != k);
                                assert(spec_neighbor_before(coord, other, k as int));
                                assert(self.record_of(other) == before.record_of(other));
                                assert(spec_invalidated_once(
                                    old(self).record_of(other),
                                    before.record_of(other),
                                    cause,
                                    old(self).spec_render().contains(other),
                                ));
                            } else {
                                assert(before.record_of(next) == old(self).record_of(next));
                            }
                        }
                    }
                },
                None => {
                    proof {
                        assert forall|other: ChunkCoord|
                            spec_neighbor_before(coord, other, k + 1) implies #[trigger] spec_neighbor_before(
                            coord,
                            other,
                            k as int,
                        ) by {
                            let j = choose|j: int|
                                0 <= j < k + 1 && #[trigger] spec_step(coord, spec_face_at(j)) == Some(other);
                            assert(j != k);
                        }
                        assert forall|other: ChunkCoord|
                            spec_neighbor_before(coord, other, k as int) implies #[trigger] spec_neighbor_before(
                            coord,
                            other,
                            k + 1,
                        ) by {
                            let j = choose|j: int|
                                0 <= j < k && #[trigger] spec_step(coord, spec_face_at(j)) == Some(other);
                            assert(0 <= j < k + 1);
                        }
                        assert forall|other: ChunkCoord| #[trigger] spec_neighbor_before(coord, other, k + 1) implies (old(
                            self,
                        ).record_of(other) is Some ==> old(self).record_of(other)->0.mesh_generation < u64::MAX)
                            && spec_invalidated_once(
                            old(self).record_of(other),
                            self.record_of(other),
                            cause,
                            old(self).spec_render().contains(other),
                        ) by {
                            assert(spec_neighbor_before(coord, other, k as int));
                        }
                    }
                },
            }
            k = k + 1;
        }
        Ok(())
    }

    /// After invalidating the meshes of `coord`'s neighbors: generations
    /// bounded below the maximum let it go through, and a successful one
    /// raises the bound by one.
    proof fn lemma_neighbors_gens(before: &Self, after: &Self, coord: ChunkCoord, cause: InvalidationCause, ok: bool, limit: int)
        requires
            forall|other: ChunkCoord|
                !spec_neighbor_before(coord, other, 6) ==> #[trigger] after.record_of(other) == before.record_of(
                    other,
                ),
            ok == forall|other: ChunkCoord|
                #[trigger] spec_neighbor_before(coord, other, 6) && before.record_of(other) is Some
                    ==> before.record_of(other)->0.mesh_generation < u64::MAX,
            ok ==> forall|other: ChunkCoord|
                #[trigger] spec_neighbor_before(coord, other, 6) ==> spec_invalidated_once(
                    before.record_of(other),
                    after.record_of(other),
                    cause,
                    before.spec_render().contains(other),
                ),
        ensures
            spec_gens_within(before.records@, limit) && limit < u64::MAX ==> ok,
            ok && spec_gens_within(before.records@, limit) ==> spec_gens_within(after.records@, limit + 1),
    {
        if spec_gens_within(before.records@, limit) && limit < u64::MAX {
            assert forall|other: ChunkCoord| #[trigger] spec_neighbor_before(coord, other, 6) && before.record_of(other) is Some
                implies before.record_of(other)->0.mesh_generation < u64::MAX by {
                assert(spec_record(before.records@, other) is Some);
            }
        }
        if ok && spec_gens_within(before.records@, limit) {
            assert forall|c: ChunkCoord| (#[trigger] spec_record(after.records@, c)) is Some implies spec_record(
                after.records@,
                c,
            )->0.mesh_generation <= limit + 1 by {
                if spec_neighbor_before(coord, c, 6) {
                    lemma_invalidated_once_gen(
                        before.record_of(c),
                        after.record_of(c),
                        cause,
                        before.spec_render().contains(c),
                    );
                    assert(spec_record(before.records@, c) is Some);
                } else {
                    assert(after.record_of(c) == before.record_of(c));
                }
            }
        }
    }

    /// The same for one coordinate's own invalidation.
    proof fn lemma_one_gens(before: &Self, after: &Self, coord: ChunkCoord, cause: InvalidationCause, ok: bool, limit: int)
        requires
            forall|other: ChunkCoord|
                other != coord ==> #[trigger] after.record_of(other) == before.record_of(other),
            ok == (before.record_of(coord) is Some ==> before.record_of(coord)->0.mesh_generation < u64::MAX),
            ok ==> spec_invalidated_once(
                before.record_of(coord),
                after.record_of(coord),
                cause,
                before.spec_render().contains(coord),
            ),
        ensures
            spec_gens_within(before.records@, limit) && limit < u64::MAX ==> ok,
            ok && spec_gens_within(before.records@, limit) ==> spec_gens_within(after.records@, limit + 1),
    {
        assert(before.record_of(coord) is Some ==> spec_record(before.records@, coord) is Some);
        if ok && spec_gens_within(before.records@, limit) {
            lemma_invalidated_once_gen(
                before.record_of(coord),
                after.record_of(coord),
                cause,
                before.spec_render().contains(coord),
            );
            assert forall|c: ChunkCoord| (#[trigger] spec_record(after.records@, c)) is Some implies spec_record(
                after.records@,
                c,
            )->0.mesh_generation <= limit + 1 by {
                if c != coord {
                    assert(after.record_of(c) == before.record_of(c));
                }
            }
        }
    }

    proof fn lemma_mesh_frame_trans(a: &Self, b: &Self, c: &Self)
        requires
            mesh_frame(a, b),
            mesh_frame(b, c),
        ensures
            mesh_frame(a, c),
    {
        let (ra, rb, rc) = (a.spec_records(), b.spec_records(), c.spec_records());
        assert forall|i: int| 0 <= i < ra.len() implies {
            &&& (#[trigger] ra[i]).coord == rc[i].coord
            &&& ra[i].token == rc[i].token
            &&& ra[i].residency == rc[i].residency
            &&& ra[i].lod == rc[i].lod
        } by {
            assert(ra[i].coord == rb[i].coord && rb[i].coord == rc[i].coord);
        }
    }


    /// Gives every dependency coordinate a live record: a retiring record of
    /// a dependency coordinate is dropped and started again, and every
    /// dependency coordinate without a record gets a fresh one, queued for
    /// loading at its distance's level, with a mesh expected when it is in
    /// the render set.
    fn create_dependency_records(&mut self) -> (result: Result<(), RuntimeError>)
        requires
            old(self).wf(),
        ensures
            final(self).wf(),
            final(self).config == old(self).config,
            final(self).center == old(self).center,
            final(self).demand == old(self).demand,
            final(self).reserved_load_slots@ == old(self).reserved_load_slots@,
            final(self).in_flight == old(self).in_flight,
            result is Ok ==> final(self).covers_dependency(),
            result is Ok ==> forall|coord: ChunkCoord|
                !old(self).spec_dependency().contains(coord) ==> #[trigger] final(self).record_of(
                    coord,
                ) == old(self).record_of(coord),
            result is Ok ==> forall|coord: ChunkCoord|
                #[trigger] live(old(self).records@, coord) ==> same_standing(
                    old(self).records@,
                    final(self).records@,
                    coord,
                ),
            result is Ok ==> forall|coord: ChunkCoord|
                #[trigger] old(self).spec_dependency().contains(coord) && !live(old(self).records@, coord)
                    ==> spec_record(final(self).records@, coord)->0.lod == spec_lod_at(
                    old(self).config,
                    old(self).center,
                    coord,
                    None,
                ),
            (result is Ok) == (old(self).next_token + spec_missing(old(self).records@, old(self).demand.dependency@)
                <= u64::MAX),
            result is Ok ==> final(self).next_token == old(self).next_token + spec_missing(
                old(self).records@,
                old(self).demand.dependency@,
            ),
            result is Err ==> result->Err_0 == RuntimeError::RequestTokenExhausted,
            forall|limit: int|
                1 <= limit && #[trigger] spec_gens_within(old(self).records@, limit) ==> spec_gens_within(
                    final(self).records@,
                    limit,
                ),
    {
        let ghost start = *old(self);
        let ghost dependency = self.demand.dependency@;
        let mut index: usize = 0;
        while index < self.demand.dependency.len()
            invariant
                start == *old(self),
                self.wf(),
                self.config == start.config,
                self.center == start.center,
                self.demand == start.demand,
                self.reserved_load_slots@ == start.reserved_load_slots@,
                self.in_flight == start.in_flight,
                self.next_token == start.next_token,
                dependency == self.demand.dependency@,
                index <= dependency.len(),
                forall|k: int|
                    0 <= k < index ==> {
                        let found = spec_record(self.records@, #[trigger] dependency[k]);
                        found is None || !(found->0.residency is EvictPending)
                    },
                forall|coord: ChunkCoord|
                    (#[trigger] spec_record(self.records@, coord)) is Some ==> spec_record(
                        self.records@,
                        coord,
                    ) == spec_record(start.records@, coord),
                forall|coord: ChunkCoord|
                    #[trigger] live(start.records@, coord) ==> spec_record(self.records@, coord)
                        == spec_record(start.records@, coord),
                forall|coord: ChunkCoord|
                    !coord_set(dependency).contains(coord) ==> #[trigger] spec_record(
                        self.records@,
                        coord,
                    ) == spec_record(start.records@, coord),
            decreases dependency.len() - index,
        {
            let coord = self.demand.dependency[index];
            let ghost body_start = *self;
            match self.find(coord) {
                Some(i) => {
                    let retiring = match self.records[i].residency {
                        ResidencyState::EvictPending(_) => true,
                        _ => false,
                    };
                    if retiring {
                        let _ = self.records.remove(i);
                        proof {
                            Self::lemma_wf_remove(&body_start, self, i as int);
                            lemma_record_remove(body_start.records@, i as int);
                        }
                    }
                },
                None => {},
            }
            proof {
                assert forall|k: int| 0 <= k < index + 1 implies {
                    let found = spec_record(self.records@, #[trigger] dependency[k]);
                    found is None || !(found->0.residency is EvictPending)
                } by {
                    if k < index {
                        assert(dependency[k] != coord);
                    }
                }
                assert forall|c: ChunkCoord| #[trigger] live(start.records@, c) implies spec_record(
                    self.records@,
                    c,
                ) == spec_record(start.records@, c) by {
                    if c == coord {
                        assert(spec_record(body_start.records@, c) == spec_record(start.records@, c));
                    }
                }
                assert forall|c: ChunkCoord| !coord_set(dependency).contains(c) implies #[trigger] spec_record(
                    self.records@,
                    c,
                ) == spec_record(start.records@, c) by {
                    assert(c != coord);
                }
            }
            index = index + 1;
        }
        let ghost cleared = *self;
        let mut index: usize = 0;
        proof {
            assert(dependency.take(0) =~= Seq::<ChunkCoord>::empty());
        }
        while index < self.demand.dependency.len()
            invariant
                start == *old(self),
                self.wf(),
                self.config == start.config,
                self.center == start.center,
                self.demand == start.demand,
                self.reserved_load_slots@ == start.reserved_load_slots@,
                self.in_flight == start.in_flight,
                dependency == self.demand.dependency@,
                dependency.no_duplicates(),
                index <= dependency.len(),
                forall|k: int|
                    0 <= k < dependency.len() ==> {
                        let found = spec_record(cleared.records@, #[trigger] dependency[k]);
                        found is None || !(found->0.residency is EvictPending)
                    },
                forall|coord: ChunkCoord|
                    (#[trigger] spec_record(cleared.records@, coord)) is Some ==> spec_record(
                        cleared.records@,
                        coord,
                    ) == spec_record(start.records@, coord),
                forall|coord: ChunkCoord|
                    #[trigger] live(start.records@, coord) ==> spec_record(cleared.records@, coord)
                        == spec_record(start.records@, coord),
                forall|k: int|
                    index <= k < dependency.len() ==> spec_record(self.records@, #[trigger] dependency[k])
                        == spec_record(cleared.records@, dependency[k]),
                forall|k: int|
                    0 <= k < index ==> {
                        let found = spec_record(self.records@, #[trigger] dependency[k]);
                        found is Some && !(found->0.residency is EvictPending)
                    },
                forall|coord: ChunkCoord|
                    !coord_set(dependency).contains(coord) ==> #[trigger] spec_record(
                        self.records@,
                        coord,
                    ) == spec_record(start.records@, coord),
                forall|coord: ChunkCoord|
                    #[trigger] live(start.records@, coord) ==> same_standing(
                        start.records@,
                        self.records@,
                        coord,
                    ),
                forall|k: int|
                    0 <= k < index && !live(start.records@, #[trigger] dependency[k]) ==> spec_record(
                        self.records@,
                        dependency[k],
                    )->0.lod == spec_lod_at(start.config, start.center, dependency[k], None),
                self.next_token == start.next_token + spec_missing(start.records@, dependency.take(index as int)),
                forall|c: ChunkCoord|
                    (#[trigger] spec_record(self.records@, c)) is Some ==> spec_record(self.records@, c)->0.mesh_generation
                        <= 1 || spec_record(self.records@, c) == spec_record(start.records@, c),
            decreases dependency.len() - index,
        {
            let coord = self.demand.dependency[index];
            let ghost body_start = *self;
            proof {
                assert(coord_set(dependency).contains(coord));
                assert(spec_record(self.records@, coord) == spec_record(cleared.records@, coord));
                assert(dependency.take(index + 1).drop_last() =~= dependency.take(index as int));
                assert(dependency.take(index + 1).last() == coord);
                assert((spec_record(cleared.records@, coord) is Some) == live(start.records@, coord));
            }
            if self.find(coord).is_none() {
                let token = match self.allocate_token() {
                    Ok(token) => token,
                    Err(error) => {
                        proof {
                            lemma_missing_prefix(start.records@, dependency, index + 1);
                        }
                        return Err(error);
                    },
                };
                let ghost allocated = *self;
                let lod = self.select_lod(coord, None);
                let position = self.insert_position(coord);
                let record = ChunkRecord {
                    coord,
                    token,
                    residency: ResidencyState::LoadQueued,
                    mesh_generation: 0,
                    mesh: MeshState::NotRequired,
                    lod,
                    last_invalidation: None,
                    committed: None,
                };
                let ghost fresh = record;
                self.records.insert(position, record);
                proof {
                    lemma_demand_sets_nest(self.center, self.config);
                    Self::lemma_wf_insert(&body_start, self, position as int, fresh);
                    lemma_record_insert(body_start.records@, position as int, fresh);
                }
                let squared = self.priority(coord);
                self.load_queue.push(LoadQueueEntry { squared, coord, token });
                if holds_coord(&self.demand.render, coord) {
                    let ghost inserted = *self;
                    let outcome = self.invalidate_mesh(coord, InvalidationCause::Membership);
                    proof {
                        assert(inserted.record_of(coord) == Some(fresh));
                    }
                    if outcome.is_err() {
                        return outcome;
                    }
                    proof {
                        assert(self.record_of(coord) is Some);
                        assert(self.record_of(coord)->0.mesh_generation == 1);
                    }
                    proof {
                        Self::lemma_mesh_frame(&inserted, self);
                        assert forall|c: ChunkCoord| c != coord implies #[trigger] spec_record(
                            self.records@,
                            c,
                        ) == spec_record(inserted.records@, c) by {
                            assert(self.record_of(c) == inserted.record_of(c));
                        }
                    }
                }
                proof {
                    assert(spec_record(self.records@, coord) is Some);
                    assert(spec_record(self.records@, coord)->0.residency == ResidencyState::LoadQueued);
                    assert(spec_record(self.records@, coord)->0.lod == lod);
                }
            }
            proof {
                assert forall|c: ChunkCoord| c != coord implies #[trigger] spec_record(self.records@, c)
                    == spec_record(body_start.records@, c) by {}
                assert(!live(start.records@, coord) ==> spec_record(self.records@, coord)->0.lod
                    == spec_lod_at(start.config, start.center, coord, None));
                assert forall|k: int| 0 <= k < index + 1 implies {
                    let found = spec_record(self.records@, #[trigger] dependency[k]);
                    found is Some && !(found->0.residency is EvictPending)
                } by {
                    if k < index {
                        assert(dependency[k] != coord);
                    }
                }
                assert forall|k: int|
                    0 <= k < index + 1 && !live(start.records@, #[trigger] dependency[k]) implies spec_record(
                    self.records@,
                    dependency[k],
                )->0.lod == spec_lod_at(start.config, start.center, dependency[k], None) by {
                    if k < index {
                        assert(dependency[k] != coord);
                    }
                }
                assert forall|k: int| index + 1 <= k < dependency.len() implies spec_record(
                    self.records@,
                    #[trigger] dependency[k],
                ) == spec_record(cleared.records@, dependency[k]) by {
                    assert(dependency[k] != coord);
                }
                assert forall|c: ChunkCoord| #[trigger] live(start.records@, c) implies same_standing(
                    start.records@,
                    self.records@,
                    c,
                ) by {
                    if c == coord {
                        assert(spec_record(cleared.records@, c) == spec_record(start.records@, c));
                    }
                }
                assert forall|c: ChunkCoord| !coord_set(dependency).contains(c) implies #[trigger] spec_record(
                    self.records@,
                    c,
                ) == spec_record(start.records@, c) by {
                    assert(c != coord);
                }
            }
            index = index + 1;
        }
        proof {
            assert forall|coord: ChunkCoord| #[trigger] self.spec_dependency().contains(coord) implies {
                &&& self.record_of(coord) is Some
                &&& !(self.record_of(coord)->0.residency is EvictPending)
            } by {
                let k = choose|k: int| 0 <= k < dependency.len() && dependency[k] == coord;
                assert(dependency[k] == coord);
            }
            assert forall|coord: ChunkCoord|
                #[trigger] old(self).spec_dependency().contains(coord) && !live(old(self).records@, coord)
                implies spec_record(self.records@, coord)->0.lod == spec_lod_at(
                old(self).config,
                old(self).center,
                coord,
                None,
            ) by {
                let k = choose|k: int| 0 <= k < dependency.len() && dependency[k] == coord;
                assert(dependency[k] == coord);
            }
            assert(dependency.take(dependency.len() as int) =~= dependency);
        }
        Ok(())
    }

    /// Starts a runtime around `center`: every dependency coordinate gets a
    /// fresh record queued for loading.
    pub fn new(config: StreamingConfig, center: ChunkCoord) -> (result: Result<Self, RuntimeError>)
        ensures
            match result {
                Ok(runtime) => {
                    &&& spec_around(center, config) is Ok
                    &&& runtime.wf()
                    &&& runtime.covers_dependency()
                    &&& runtime.spec_config() == config
                    &&& runtime.spec_center() == center
                    &&& runtime.spec_reserved().len() == 0
                    &&& runtime.spec_in_flight() is None
                    &&& forall|coord: ChunkCoord|
                        #[trigger] runtime.record_of(coord) is Some ==> runtime.spec_dependency().contains(
                            coord,
                        )
                },
                Err(RuntimeError::Demand(error)) => spec_around(center, config) == Err::<
                    (Set<ChunkCoord>, Set<ChunkCoord>, Set<ChunkCoord>),
                    DemandError,
                >(error),
                Err(error) => {
                    &&& spec_around(center, config) is Ok
                    &&& error == RuntimeError::RequestTokenExhausted
                    &&& 1 + (spec_around(center, config)->Ok_0).1.len() > u64::MAX
                },
            },
    {
        let config = match config.validate() {
            Ok(config) => config,
            Err(error) => return Err(RuntimeError::Demand(error)),
        };
        let demand = match DemandSets::around(center, config) {
            Ok(demand) => demand,
            Err(error) => return Err(RuntimeError::Demand(error)),
        };
        let mut runtime = StreamingRuntime {
            config,
            center,
            demand,
            records: Vec::new(),
            next_token: RequestToken::first().get(),
            reserved_load_slots: Vec::new(),
            load_queue: Vec::new(),
            mesh_queue: Vec::new(),
            consecutive_mesh_dispatches: 0,
            in_flight: None,
            metrics: RuntimeMetrics::default(),
        };
        proof {
            assert(runtime.records@ =~= Seq::<ChunkRecord<M>>::empty());
            assert(count_records(runtime.records@, Tally::Payload) == 0);
            assert(runtime.wf());
        }
        match runtime.create_dependency_records() {
            Ok(()) => {
                proof {
                    assert forall|coord: ChunkCoord| #[trigger] runtime.record_of(coord) is Some
                        implies runtime.spec_dependency().contains(coord) by {
                        if !runtime.spec_dependency().contains(coord) {
                            assert(spec_record(Seq::<ChunkRecord<M>>::empty(), coord) is None);
                        }
                    }
                }
                Ok(runtime)
            },
            Err(error) => {
                proof {
                    lemma_missing_all::<M>(runtime.demand.dependency@);
                    lemma_coord_set_len(runtime.demand.dependency@);
                }
                Err(error)
            },
        }
    }

    /// Rebuilds both queues from the records, dropping every stale entry.
    fn rebuild_queued_priorities(&mut self)
        ensures
            final(self).load_queue@ == spec_load_entries(
                old(self).records@,
                coord_set(old(self).demand.dependency@),
                old(self).center,
            ),
            final(self).mesh_queue@ == spec_mesh_entries(old(self).records@, old(self).center),
            final(self).records@ == old(self).records@,
            final(self).config == old(self).config,
            final(self).center == old(self).center,
            final(self).demand == old(self).demand,
            final(self).next_token == old(self).next_token,
            final(self).reserved_load_slots@ == old(self).reserved_load_slots@,
            final(self).in_flight == old(self).in_flight,
            final(self).consecutive_mesh_dispatches == old(self).consecutive_mesh_dispatches,
            final(self).metrics == old(self).metrics,
    {
        self.load_queue.clear();
        self.mesh_queue.clear();
        let ghost dependency = coord_set(self.demand.dependency@);
        let mut i: usize = 0;
        while i < self.records.len()
            invariant
                i <= self.records@.len(),
                self.records@ == old(self).records@,
                self.demand == old(self).demand,
                self.center == old(self).center,
                dependency == coord_set(self.demand.dependency@),
                self.load_queue@ == spec_load_entries(self.records@.take(i as int), dependency, self.center),
                self.mesh_queue@ == spec_mesh_entries(self.records@.take(i as int), self.center),
                self.config == old(self).config,
                self.next_token == old(self).next_token,
                self.reserved_load_slots@ == old(self).reserved_load_slots@,
                self.in_flight == old(self).in_flight,
                self.consecutive_mesh_dispatches == old(self).consecutive_mesh_dispatches,
                self.metrics == old(self).metrics,
            decreases self.records@.len() - i,
        {
            proof {
                assert(self.records@.take(i + 1).drop_last() =~= self.records@.take(i as int));
            }
            let coord = self.records[i].coord;
            let token = self.records[i].token;
            let queued = match self.records[i].residency {
                ResidencyState::LoadQueued => true,
                _ => false,
            };
            if queued && holds_coord(&self.demand.dependency, coord) {
                let squared = self.priority(coord);
                self.load_queue.push(LoadQueueEntry { squared, coord, token });
            }
            match &self.records[i].mesh {
                MeshState::Dirty(stamp) => {
                    let rank: u8 = match stamp.lod {
                        LodLevel::Lod0 => 0,
                        LodLevel::Lod1 => 1,
                    };
                    let entry = MeshQueueEntry {
                        rank,
                        squared: self.priority(coord),
                        coord,
                        token,
                        mesh_generation: stamp.mesh_generation,
                        lod: stamp.lod,
                    };
                    self.mesh_queue.push(entry);
                },
                _ => {},
            }
            i = i + 1;
        }
        proof {
            assert(self.records@.take(i as int) =~= self.records@);
        }
    }


    /// Retires every record that leaves the demand around the new center: a
    /// record that owns a chunk keeps it until its bounded release, any
    /// other record is dropped, and the neighbors of each see their data
    /// change.
    #[verifier::rlimit(60)]
    fn retire_leaving(&mut self) -> (result: Result<(), RuntimeError>)
        requires
            old(self).wf_core(),
        ensures
            final(self).wf_core(),
            result is Ok ==> final(self).retained(),
            result is Err ==> result->Err_0 is GenerationExhausted,
            forall|limit: int|
                #[trigger] spec_gens_within(old(self).records@, limit) && limit + old(self).records@.len()
                    <= u64::MAX ==> result is Ok && spec_gens_within(
                    final(self).records@,
                    limit + old(self).records@.len(),
                ),
            final(self).config == old(self).config,
            final(self).center == old(self).center,
            final(self).demand == old(self).demand,
            final(self).reserved_load_slots@ == old(self).reserved_load_slots@,
            final(self).next_token == old(self).next_token,
            final(self).in_flight == old(self).in_flight,
            forall|coord: ChunkCoord|
                (#[trigger] spec_record(old(self).records@, coord)) is Some && !spec_leaves(
                    spec_record(old(self).records@, coord)->0,
                    coord_set(old(self).demand.dependency@),
                    coord_set(old(self).demand.retention@),
                ) ==> same_standing(old(self).records@, final(self).records@, coord),
            forall|coord: ChunkCoord|
                (#[trigger] spec_record(final(self).records@, coord)) is Some ==> spec_record(
                    old(self).records@,
                    coord,
                ) is Some,
            result is Ok ==> forall|coord: ChunkCoord|
                (#[trigger] spec_record(final(self).records@, coord)) is Some && spec_leaves(
                    spec_record(old(self).records@, coord)->0,
                    coord_set(old(self).demand.dependency@),
                    coord_set(old(self).demand.retention@),
                ) ==> spec_record(final(self).records@, coord)->0.residency is EvictPending,
    {
        let ghost start = *old(self);
        let ghost dependency = coord_set(self.demand.dependency@);
        let ghost retention = coord_set(self.demand.retention@);
        let mut i: usize = 0;
        let ghost mut steps: int = 0;
        while i < self.records.len()
            invariant
                start == *old(self),
                0 <= steps,
                steps + (self.records@.len() - i) <= start.records@.len(),
                forall|limit: int|
                    #[trigger] spec_gens_within(start.records@, limit) ==> spec_gens_within(
                        self.records@,
                        limit + steps,
                    ),
                self.wf_core(),
                self.config == start.config,
                self.center == start.center,
                self.demand == start.demand,
                self.reserved_load_slots@ == start.reserved_load_slots@,
                self.next_token == start.next_token,
                self.in_flight == start.in_flight,
                dependency == coord_set(self.demand.dependency@),
                retention == coord_set(self.demand.retention@),
                i <= self.records@.len(),
                forall|c: ChunkCoord|
                    (#[trigger] spec_record(self.records@, c)) is Some ==> spec_record(start.records@, c)
                        is Some,
                forall|c: ChunkCoord|
                    (#[trigger] spec_record(start.records@, c)) is Some && !spec_leaves(
                        spec_record(start.records@, c)->0,
                        dependency,
                        retention,
                    ) ==> same_standing(start.records@, self.records@, c),
                forall|j: int|
                    0 <= j < i && spec_leaves(
                        spec_record(start.records@, (#[trigger] self.records@[j]).coord)->0,
                        dependency,
                        retention,
                    ) ==> self.records@[j].residency is EvictPending,
                forall|j: int|
                    i <= j < self.records@.len() ==> same_standing(
                        start.records@,
                        self.records@,
                        (#[trigger] self.records@[j]).coord,
                    ),
            decreases self.records@.len() - i,
        {
            let coord = self.records[i].coord;
            let queued = match self.records[i].residency {
                ResidencyState::LoadQueued => true,
                _ => false,
            };
            let leaves = !holds_coord(&self.demand.retention, coord) || (!holds_coord(
                &self.demand.dependency,
                coord,
            ) && queued);
            proof {
                lemma_record_at(self.records@, i as int);
                assert(same_standing(start.records@, self.records@, coord));
                assert(leaves == spec_leaves(spec_record(start.records@, coord)->0, dependency, retention));
            }
            if leaves {
                let ghost before = *self;
                let record = self.records.remove(i);
                let ChunkRecord {
                    coord: kept_coord,
                    token,
                    residency,
                    mesh_generation,
                    mesh: _,
                    lod,
                    last_invalidation,
                    committed: _,
                } = record;
                let payload: Option<Chunk> = match residency {
                    ResidencyState::CpuResident { chunk, .. } => Some(chunk),
                    ResidencyState::EvictPending(chunk) => chunk,
                    _ => None,
                };
                let kept = payload.is_some();
                match payload {
                    Some(chunk) => {
                        let retired = ChunkRecord {
                            coord: kept_coord,
                            token,
                            residency: ResidencyState::EvictPending(Some(chunk)),
                            mesh_generation,
                            mesh: MeshState::NotRequired,
                            lod,
                            last_invalidation,
                            committed: None,
                        };
                        let ghost r = retired;
                        self.records.insert(i, retired);
                        proof {
                            assert(self.records@ =~= before.records@.update(i as int, r));
                            Self::lemma_wf_update(&before, self, i as int, r);
                            lemma_record_update(before.records@, i as int, r);
                        }
                    },
                    None => {
                        proof {
                            Self::lemma_wf_remove(&before, self, i as int);
                            lemma_record_remove(before.records@, i as int);
                        }
                    },
                }
                let ghost marked = *self;
                proof {
                    assert forall|c: ChunkCoord| c != coord implies #[trigger] spec_record(
                        self.records@,
                        c,
                    ) == spec_record(before.records@, c) by {}
                    assert forall|j: int|
                        0 <= j < self.records@.len() && j != i implies #[trigger] self.records@[j]
                        == before.records@[if kept || j < i {
                        j
                    } else {
                        j + 1
                    }] by {}
                }
                proof {
                    assert forall|limit: int| #[trigger] spec_gens_within(start.records@, limit) implies spec_gens_within(
                        marked.records@,
                        limit + steps,
                    ) by {
                        assert(spec_gens_within(before.records@, limit + steps));
                        assert forall|c: ChunkCoord| (#[trigger] spec_record(marked.records@, c)) is Some implies spec_record(
                            marked.records@,
                            c,
                        )->0.mesh_generation <= limit + steps by {
                            if c != coord {
                                assert(spec_record(marked.records@, c) == spec_record(before.records@, c));
                            } else {
                                lemma_record_at(before.records@, i as int);
                                assert(spec_record(before.records@, c) is Some);
                            }
                        }
                    }
                }
                let outcome = self.invalidate_neighbors(coord, InvalidationCause::Data);
                proof {
                    assert forall|limit: int| #[trigger] spec_gens_within(start.records@, limit) && limit + steps
                        < u64::MAX implies outcome is Ok by {
                        Self::lemma_neighbors_gens(&marked, self, coord, InvalidationCause::Data, outcome is Ok, limit + steps);
                    }
                    if outcome is Ok {
                        assert forall|limit: int| #[trigger] spec_gens_within(start.records@, limit) implies spec_gens_within(
                            self.records@,
                            limit + steps + 1,
                        ) by {
                            Self::lemma_neighbors_gens(&marked, self, coord, InvalidationCause::Data, true, limit + steps);
                        }
                    }
                    steps = steps + 1;
                }
                proof {
                    lemma_residency_lookup(marked.records@, self.records@);
                    let next = if kept {
                        i + 1
                    } else {
                        i as int
                    };
                    assert forall|j: int|
                        0 <= j < next && spec_leaves(
                            spec_record(start.records@, (#[trigger] self.records@[j]).coord)->0,
                            dependency,
                            retention,
                        ) implies self.records@[j].residency is EvictPending by {
                        assert(self.records@[j].residency == marked.records@[j].residency);
                        assert(self.records@[j].coord == marked.records@[j].coord);
                        if j < i {
                            assert(marked.records@[j] == before.records@[j]);
                        }
                    }
                    assert forall|j: int| next <= j < self.records@.len() implies same_standing(
                        start.records@,
                        self.records@,
                        (#[trigger] self.records@[j]).coord,
                    ) by {
                        let k = if kept {
                            j
                        } else {
                            j + 1
                        };
                        assert(self.records@[j].coord == marked.records@[j].coord);
                        assert(marked.records@[j] == before.records@[k]);
                        let c = before.records@[k].coord;
                        assert(same_standing(start.records@, before.records@, c));
                        assert(coord_lt(before.records@[i as int].coord, c));
                        assert(spec_record(marked.records@, c) == spec_record(before.records@, c));
                        assert(same_standing(marked.records@, self.records@, c));
                    }
                }
                if outcome.is_err() {
                    return outcome;
                }
                if kept {
                    i = i + 1;
                }
            } else {
                i = i + 1;
            }
        }
        proof {
            assert forall|j: int|
                0 <= j < self.records@.len() && !((#[trigger] self.records@[j]).residency is EvictPending)
                implies coord_set(self.demand.retention@).contains(self.records@[j].coord) by {
                let c = self.records@[j].coord;
                lemma_record_at(self.records@, j);
                assert(spec_record(start.records@, c) is Some);
                if !spec_leaves(spec_record(start.records@, c)->0, dependency, retention) {
                    lemma_record_at(start.records@, 0);
                    let r = spec_record(start.records@, c)->0;
                    assert(r.coord == c) by {
                        let k = choose|k: int| 0 <= k < start.records@.len() && #[trigger] start.records@[k].coord == c;
                        lemma_record_at(start.records@, k);
                    }
                }
            }
            assert forall|c: ChunkCoord|
                (#[trigger] spec_record(self.records@, c)) is Some && spec_leaves(
                    spec_record(start.records@, c)->0,
                    dependency,
                    retention,
                ) implies spec_record(self.records@, c)->0.residency is EvictPending by {
                let k = choose|k: int| 0 <= k < self.records@.len() && #[trigger] self.records@[k].coord == c;
                lemma_record_at(self.records@, k);
            }
        }
        Ok(())
    }


    /// Moves the demand center. Records that leave retire, every new
    /// dependency gets a record, every render record takes the level its new
    /// distance selects with its old level as history (changes invalidate its
    /// mesh and its neighbors' seams), records whose render membership
    /// changed are invalidated, and both queues are rebuilt.
    pub fn set_demand_center(&mut self, center: ChunkCoord) -> (result: Result<(), RuntimeError>)
        requires
            old(self).wf(),
        ensures
            center == old(self).spec_center() ==> result is Ok && final(self).spec_records()
                == old(self).spec_records() && final(self).spec_demand() == old(self).spec_demand()
                && final(self).spec_load_queue() == old(self).spec_load_queue()
                && final(self).spec_mesh_queue() == old(self).spec_mesh_queue() && final(self).wf(),
            ({
                let sets = spec_around(center, old(self).spec_config())->Ok_0;
                spec_around(center, old(self).spec_config()) is Ok && old(self).spec_next_token() + sets.1.len()
                    <= u64::MAX && spec_generation_room(old(self).spec_records(), sets.0.len() as int)
                    ==> result is Ok
            }),
            center != old(self).spec_center() ==> match result {
                Err(RuntimeError::Demand(error)) => {
                    &&& spec_around(center, old(self).spec_config()) == Err::<
                        (Set<ChunkCoord>, Set<ChunkCoord>, Set<ChunkCoord>),
                        DemandError,
                    >(error)
                    &&& final(self).spec_records() == old(self).spec_records()
                    &&& final(self).spec_center() == old(self).spec_center()
                    &&& final(self).spec_demand() == old(self).spec_demand()
                    &&& final(self).wf()
                },
                Err(error) => {
                    let sets = spec_around(center, old(self).spec_config())->Ok_0;
                    &&& spec_around(center, old(self).spec_config()) is Ok
                    &&& final(self).wf_core()
                    &&& error == RuntimeError::RequestTokenExhausted || error is GenerationExhausted
                    &&& error == RuntimeError::RequestTokenExhausted ==> old(self).spec_next_token() + sets.1.len()
                        > u64::MAX
                    &&& error is GenerationExhausted ==> !spec_generation_room(
                        old(self).spec_records(),
                        sets.0.len() as int,
                    )
                },
                Ok(()) => {
                    let (config, records) = (old(self).spec_config(), final(self).spec_records());
                    &&& final(self).wf()
                    &&& final(self).covers_dependency()
                    &&& final(self).spec_center() == center
                    &&& final(self).spec_config() == config
                    &&& spec_around(center, config) == Ok::<_, DemandError>(
                        (
                            final(self).spec_render(),
                            final(self).spec_dependency(),
                            final(self).spec_retention(),
                        ),
                    )
                    &&& forall|coord: ChunkCoord|
                        (#[trigger] final(self).record_of(coord)) is Some && !final(self).spec_retention().contains(
                            coord,
                        ) ==> final(self).record_of(coord)->0.residency is EvictPending
                    &&& forall|coord: ChunkCoord|
                        (#[trigger] final(self).record_of(coord)) is Some ==> old(self).record_of(
                            coord,
                        ) is Some || final(self).spec_dependency().contains(coord)
                    &&& forall|coord: ChunkCoord|
                        #[trigger] final(self).spec_render().contains(coord) ==> final(self).record_of(
                            coord,
                        )->0.lod == spec_lod_at(
                            config,
                            center,
                            coord,
                            Some(
                                if live(old(self).spec_records(), coord) {
                                    old(self).record_of(coord)->0.lod
                                } else {
                                    spec_lod_at(config, center, coord, None)
                                },
                            ),
                        )
                    &&& final(self).spec_load_queue() == spec_load_entries(
                        records,
                        final(self).spec_dependency(),
                        center,
                    )
                    &&& final(self).spec_mesh_queue() == spec_mesh_entries(records, center)
                    &&& final(self).spec_reserved() == old(self).spec_reserved()
                    &&& final(self).spec_in_flight() == old(self).spec_in_flight()
                    &&& forall|coord: ChunkCoord|
                        #[trigger] final(self).spec_render().contains(coord) && final(self).record_of(coord)->0.lod
                            != (if live(old(self).spec_records(), coord) {
                            old(self).record_of(coord)->0.lod
                        } else {
                            spec_lod_at(config, center, coord, None)
                        }) ==> spec_mesh_settled(final(self).record_of(coord)) && forall|other: ChunkCoord|
                            #[trigger] spec_neighbor_before(coord, other, 6) ==> spec_mesh_settled(
                                final(self).record_of(other),
                            )
                    &&& forall|coord: ChunkCoord|
                        (#[trigger] final(self).record_of(coord)) is Some ==> spec_membership_settled(
                            final(self).record_of(coord)->0,
                            final(self).spec_render(),
                        )
                },
            },
    {
        if center == self.center {
            return Ok(());
        }
        let next_demand = match DemandSets::around(center, self.config) {
            Ok(demand) => demand,
            Err(error) => return Err(RuntimeError::Demand(error)),
        };
        let ghost start = *old(self);
        let ghost n: int = start.records@.len() as int;
        let ghost r: int = next_demand.render@.len() as int;
        let ghost room: bool = spec_generation_room(start.records@, r);
        let ghost floor: int = u64::MAX - (n + 2 * r + 2);
        proof {
            lemma_coord_set_len(next_demand.render@);
            lemma_coord_set_len(next_demand.dependency@);
            assert(start.spec_records() == start.records@);
        }
        self.center = center;
        self.demand = next_demand;
        proof {
            assert(self.wf_core());
        }
        let ghost moved = *self;
        let retired_outcome = self.retire_leaving();
        if retired_outcome.is_err() {
            proof {
                if room {
                    assert(spec_gens_within(moved.records@, floor));
                }
            }
            return retired_outcome;
        }
        let ghost retired = *self;
        proof {
            if room {
                assert(spec_gens_within(moved.records@, floor));
                assert(spec_gens_within(retired.records@, floor + n));
            }
        }
        proof {
            assert forall|c: ChunkCoord| #[trigger] coord_set(self.demand.dependency@).contains(c) implies (live(
                start.records@,
                c,
            ) <==> live(retired.records@, c)) && (live(start.records@, c) ==> same_standing(
                start.records@,
                retired.records@,
                c,
            )) by {
                lemma_demand_sets_nest(center, self.config);
                if spec_record(start.records@, c) is Some {
                    assert(spec_record(moved.records@, c) == spec_record(start.records@, c));
                    let r = spec_record(start.records@, c)->0;
                    assert(!spec_leaves(r, coord_set(moved.demand.dependency@), coord_set(moved.demand.retention@)));
                }
            }
        }
        let created_outcome = self.create_dependency_records();
        proof {
            lemma_missing_prefix(retired.records@, retired.demand.dependency@, 0);
        }
        if created_outcome.is_err() {
            return created_outcome;
        }
        let ghost created = *self;
        proof {
            if room {
                assert(spec_gens_within(retired.records@, floor + n));
                assert(spec_gens_within(created.records@, floor + n));
            }
        }
        let mut k: usize = 0;
        while k < self.demand.render.len()
            invariant
                start == *old(self),
                center != start.center,
                self.wf(),
                self.config == created.config,
                self.center == created.center,
                self.demand == created.demand,
                self.next_token == created.next_token,
                self.reserved_load_slots@ == created.reserved_load_slots@,
                self.in_flight == created.in_flight,
                created.covers_dependency(),
                k <= self.demand.render@.len(),
                self.demand.render@.len() == r,
                room == spec_generation_room(start.records@, r),
                start.spec_records() == start.records@,
                spec_around(center, start.config) is Ok,
                (spec_around(center, start.config)->Ok_0).0.len() == r,
                room ==> floor + n + 2 * r + 2 == u64::MAX,
                room ==> 1 <= floor,
                room ==> spec_gens_within(self.records@, floor + n + 2 * k),
                forall|c: ChunkCoord|
                    #![trigger spec_record(self.records@, c)]
                    (spec_record(self.records@, c) is Some <==> spec_record(created.records@, c) is Some) && (
                    spec_record(created.records@, c) is Some ==> {
                        &&& spec_record(self.records@, c)->0.residency == spec_record(
                            created.records@,
                            c,
                        )->0.residency
                        &&& spec_record(self.records@, c)->0.token == spec_record(
                            created.records@,
                            c,
                        )->0.token
                    }),
                forall|c: ChunkCoord|
                    (#[trigger] spec_record(created.records@, c)) is Some
                        && !self.demand.render@.take(k as int).contains(c) ==> spec_record(
                        self.records@,
                        c,
                    )->0.lod == spec_record(created.records@, c)->0.lod,
                forall|j: int|
                    0 <= j < k && spec_record(created.records@, #[trigger] self.demand.render@[j]) is Some
                        ==> spec_record(self.records@, self.demand.render@[j])->0.lod == spec_lod_at(
                        self.config,
                        self.center,
                        self.demand.render@[j],
                        Some(spec_record(created.records@, self.demand.render@[j])->0.lod),
                    ),
                forall|j: int|
                    0 <= j < k && spec_record(created.records@, #[trigger] self.demand.render@[j]) is Some
                        && spec_lod_changes(
                        self.config,
                        self.center,
                        self.demand.render@[j],
                        spec_record(created.records@, self.demand.render@[j])->0.lod,
                    ) ==> spec_mesh_settled(spec_record(self.records@, self.demand.render@[j])) && forall|
                        other: ChunkCoord,
                    | #[trigger] spec_neighbor_before(self.demand.render@[j], other, 6) ==> spec_mesh_settled(
                        spec_record(self.records@, other),
                    ),
            decreases self.demand.render@.len() - k,
        {
            let coord = self.demand.render[k];
            let ghost body_start = *self;
            let ghost bound: int = floor + n + 2 * k;
            match self.find(coord) {
                None => {},
                Some(i) => {
                    let previous = self.records[i].lod;
                    let next = self.select_lod(coord, Some(previous));
                    if next != previous {
                        self.records[i].lod = next;
                        proof {
                            let r = self.records@[i as int];
                            assert(self.records@ =~= body_start.records@.update(i as int, r));
                            Self::lemma_wf_update(&body_start, self, i as int, r);
                            lemma_record_update(body_start.records@, i as int, r);
                        }
                        self.metrics.lod_swaps = self.metrics.lod_swaps.wrapping_add(1);
                        let ghost relodded = *self;
                        proof {
                            if room {
                                assert forall|c: ChunkCoord| (#[trigger] spec_record(relodded.records@, c)) is Some
                                    implies spec_record(relodded.records@, c)->0.mesh_generation <= bound by {
                                    if c != coord {
                                        assert(spec_record(relodded.records@, c) == spec_record(body_start.records@, c));
                                    } else {
                                        lemma_record_at(body_start.records@, i as int);
                                    }
                                }
                            }
                        }
                        let outcome = self.invalidate_one(coord, InvalidationCause::LodChange);
                        proof {
                            Self::lemma_mesh_frame(&relodded, self);
                            lemma_residency_lookup(relodded.records@, self.records@);
                            Self::lemma_one_gens(&relodded, self, coord, InvalidationCause::LodChange, outcome is Ok, bound);
                        }
                        if outcome.is_err() {
                            return outcome;
                        }
                        let ghost invalidated = *self;
                        let outcome = self.invalidate_neighbors(
                            coord,
                            InvalidationCause::NeighborPresentation,
                        );
                        proof {
                            Self::lemma_mesh_frame(&invalidated, self);
                            lemma_residency_lookup(invalidated.records@, self.records@);
                            Self::lemma_neighbors_gens(
                                &invalidated,
                                self,
                                coord,
                                InvalidationCause::NeighborPresentation,
                                outcome is Ok,
                                bound + 1,
                            );
                        }
                        if outcome.is_err() {
                            return outcome;
                        }
                        proof {
                            lemma_not_own_neighbor(coord);
                            lemma_invalidated_is_settled(
                                relodded.record_of(coord),
                                invalidated.record_of(coord),
                                InvalidationCause::LodChange,
                                relodded.spec_render().contains(coord),
                            );
                            assert(self.record_of(coord) == invalidated.record_of(coord));
                            assert forall|other: ChunkCoord| #[trigger] spec_neighbor_before(coord, other, 6) implies spec_mesh_settled(
                                self.record_of(other),
                            ) by {
                                lemma_invalidated_is_settled(
                                    invalidated.record_of(other),
                                    self.record_of(other),
                                    InvalidationCause::NeighborPresentation,
                                    invalidated.spec_render().contains(other),
                                );
                            }
                            assert forall|c: ChunkCoord| c != coord && !spec_neighbor_before(coord, c, 6) implies #[trigger] self.record_of(c)
                                == body_start.record_of(c) by {
                                assert(relodded.record_of(c) == body_start.record_of(c));
                            }
                            assert forall|c: ChunkCoord| #[trigger] spec_mesh_settled(body_start.record_of(c)) implies spec_mesh_settled(
                                self.record_of(c),
                            ) by {
                                if c != coord && !spec_neighbor_before(coord, c, 6) {
                                    assert(self.record_of(c) == body_start.record_of(c));
                                }
                            }
                        }
                        proof {
                            assert forall|c: ChunkCoord|
                                #![trigger spec_record(self.records@, c)]
                                (spec_record(self.records@, c) is Some <==> spec_record(
                                    body_start.records@,
                                    c,
                                ) is Some) && (spec_record(body_start.records@, c) is Some ==> {
                                    &&& spec_record(self.records@, c)->0.residency == spec_record(
                                        body_start.records@,
                                        c,
                                    )->0.residency
                                    &&& spec_record(self.records@, c)->0.token == spec_record(
                                        body_start.records@,
                                        c,
                                    )->0.token
                                    &&& spec_record(self.records@, c)->0.lod == if c == coord {
                                        next
                                    } else {
                                        spec_record(body_start.records@, c)->0.lod
                                    }
                                }) by {
                                assert(spec_record(relodded.records@, c) is Some <==> spec_record(
                                    invalidated.records@,
                                    c,
                                ) is Some);
                            }
                        }
                    }
                    proof {
                        lemma_record_at(body_start.records@, i as int);
                        assert(spec_record(self.records@, coord)->0.lod == next);
                        assert(previous == spec_record(body_start.records@, coord)->0.lod);
                        if next == previous {
                            assert(self.records@ == body_start.records@);
                        }
                    }
                },
            }
            proof {
                assert forall|c: ChunkCoord| #[trigger] spec_mesh_settled(spec_record(body_start.records@, c)) implies spec_mesh_settled(
                    spec_record(self.records@, c),
                ) by {
                    assert(body_start.record_of(c) == spec_record(body_start.records@, c));
                    assert(self.record_of(c) == spec_record(self.records@, c));
                }
                if spec_record(body_start.records@, coord) is Some && spec_lod_changes(
                    self.config,
                    self.center,
                    coord,
                    spec_record(body_start.records@, coord)->0.lod,
                ) {
                    assert(spec_mesh_settled(spec_record(self.records@, coord))) by {
                        assert(self.record_of(coord) == spec_record(self.records@, coord));
                    }
                    assert forall|other: ChunkCoord| #[trigger] spec_neighbor_before(coord, other, 6) implies spec_mesh_settled(
                        spec_record(self.records@, other),
                    ) by {
                        assert(self.record_of(other) == spec_record(self.records@, other));
                    }
                }
            }
            proof {
                assert(self.demand.render@.take(k + 1) =~= self.demand.render@.take(k as int).push(coord));
                assert(!self.demand.render@.take(k as int).contains(coord)) by {
                    if self.demand.render@.take(k as int).contains(coord) {
                        let j = choose|j: int| 0 <= j < k && self.demand.render@.take(k as int)[j] == coord;
                        assert(self.demand.render@[j] == self.demand.render@[k as int]);
                    }
                }
                assert forall|j: int| 0 <= j < k implies #[trigger] self.demand.render@[j] != coord by {
                    assert(self.demand.render@[j] != self.demand.render@[k as int]);
                }
                assert forall|c: ChunkCoord|
                    (#[trigger] spec_record(created.records@, c)) is Some
                        && !self.demand.render@.take(k + 1).contains(c) implies spec_record(
                    self.records@,
                    c,
                )->0.lod == spec_record(created.records@, c)->0.lod by {
                    assert(self.demand.render@.take(k + 1)[k as int] == coord);
                    assert(c != coord);
                    if self.demand.render@.take(k as int).contains(c) {
                        let j = choose|j: int| 0 <= j < k && self.demand.render@.take(k as int)[j] == c;
                        assert(self.demand.render@.take(k + 1)[j] == c);
                    }
                    assert(spec_record(body_start.records@, c)->0.lod == spec_record(created.records@, c)->0.lod);
                }
            }
            proof {
                if room {
                    if spec_gens_within(self.records@, bound) {
                        lemma_gens_mono(self.records@, bound, bound + 2);
                    }
                }
            }
            k = k + 1;
        }
        let ghost lodded = *self;
        let mut i: usize = 0;
        while i < self.records.len()
            invariant
                start == *old(self),
                center != start.center,
                self.wf(),
                lodded.wf(),
                mesh_frame(&lodded, &*self),
                self.config == lodded.config,
                self.center == lodded.center,
                self.demand == lodded.demand,
                self.next_token == lodded.next_token,
                self.reserved_load_slots@ == lodded.reserved_load_slots@,
                self.in_flight == lodded.in_flight,
                i <= self.records@.len(),
                room == spec_generation_room(start.records@, r),
                start.spec_records() == start.records@,
                spec_around(center, start.config) is Ok,
                (spec_around(center, start.config)->Ok_0).0.len() == r,
                room ==> floor + n + 2 * r + 2 == u64::MAX,
                room ==> spec_gens_within(lodded.records@, floor + n + 2 * r),
                room ==> spec_gens_within(self.records@, floor + n + 2 * r + 1),
                forall|x: int| i <= x < self.records@.len() ==> #[trigger] self.records@[x] == lodded.records@[x],
                forall|c: ChunkCoord|
                    #[trigger] spec_mesh_settled(spec_record(lodded.records@, c)) ==> spec_mesh_settled(
                        spec_record(self.records@, c),
                    ),
                forall|x: int|
                    0 <= x < i ==> spec_membership_settled(
                        #[trigger] self.records@[x],
                        coord_set(self.demand.render@),
                    ),
            decreases self.records@.len() - i,
        {
            let coord = self.records[i].coord;
            let should_render = holds_coord(&self.demand.render, coord);
            let required = match self.records[i].mesh {
                MeshState::NotRequired => false,
                _ => true,
            };
            let ghost before = *self;
            proof {
                lemma_record_at(before.records@, i as int);
            }
            if should_render != required {
                let outcome = self.invalidate_one(coord, InvalidationCause::Membership);
                proof {
                    Self::lemma_mesh_frame(&before, self);
                    Self::lemma_mesh_frame_trans(&lodded, &before, &*self);
                    assert(before.records@[i as int] == lodded.records@[i as int]);
                    lemma_record_at(lodded.records@, i as int);
                    if room {
                        assert(spec_record(lodded.records@, coord) is Some);
                        assert(before.record_of(coord) == spec_record(before.records@, coord));
                    }
                }
                if outcome.is_err() {
                    return outcome;
                }
                proof {
                    lemma_invalidated_once_gen(
                        before.record_of(coord),
                        self.record_of(coord),
                        InvalidationCause::Membership,
                        before.spec_render().contains(coord),
                    );
                    assert forall|x: int| i < x < self.records@.len() implies #[trigger] self.records@[x]
                        == lodded.records@[x] by {
                        lemma_record_at(self.records@, x);
                        lemma_record_at(before.records@, x);
                        assert(before.records@[x].coord != coord);
                        assert(self.record_of(before.records@[x].coord) == before.record_of(before.records@[x].coord));
                    }
                    if room {
                        assert forall|c: ChunkCoord| (#[trigger] spec_record(self.records@, c)) is Some implies spec_record(
                            self.records@,
                            c,
                        )->0.mesh_generation <= floor + n + 2 * r + 1 by {
                            if c != coord {
                                assert(self.record_of(c) == before.record_of(c));
                                assert(spec_record(before.records@, c) is Some);
                            }
                        }
                    }
                }
                proof {
                    let render = coord_set(self.demand.render@);
                    assert(before.spec_render() == render);
                    lemma_membership_invalidated(before.records@[i as int], self.record_of(coord), render);
                    lemma_invalidated_is_settled(
                        before.record_of(coord),
                        self.record_of(coord),
                        InvalidationCause::Membership,
                        render.contains(coord),
                    );
                    lemma_record_at(self.records@, i as int);
                    assert(self.records@[i as int] == self.record_of(coord)->0);
                    assert forall|x: int| 0 <= x < i + 1 implies spec_membership_settled(
                        #[trigger] self.records@[x],
                        render,
                    ) by {
                        if x < i {
                            lemma_record_at(self.records@, x);
                            lemma_record_at(before.records@, x);
                            assert(before.records@[x].coord != coord);
                            assert(self.record_of(self.records@[x].coord) == before.record_of(before.records@[x].coord));
                        }
                    }
                    assert forall|c: ChunkCoord| #[trigger] spec_mesh_settled(spec_record(lodded.records@, c)) implies spec_mesh_settled(
                        spec_record(self.records@, c),
                    ) by {
                        assert(spec_mesh_settled(spec_record(before.records@, c)));
                        if c != coord {
                            assert(self.record_of(c) == before.record_of(c));
                        }
                    }
                }
            } else {
                proof {
                    assert forall|x: int| 0 <= x < i + 1 implies spec_membership_settled(
                        #[trigger] self.records@[x],
                        coord_set(self.demand.render@),
                    ) by {}
                }
            }
            i = i + 1;
        }
        let ghost settled = *self;
        self.rebuild_queued_priorities();
        proof {
            assert(self.records@ == settled.records@);
            lemma_residency_lookup(lodded.records@, self.records@);
            assert(self.wf()) by {
                assert(self.retained() == settled.retained());
                assert(self.wf_core() == settled.wf_core());
            }
            assert(self.covers_dependency()) by {
                assert forall|coord: ChunkCoord| #[trigger] self.spec_dependency().contains(coord) implies {
                    &&& self.record_of(coord) is Some
                    &&& !(self.record_of(coord)->0.residency is EvictPending)
                } by {
                    assert(created.spec_dependency().contains(coord));
                    assert(spec_record(lodded.records@, coord) is Some);
                }
            }
            assert forall|coord: ChunkCoord|
                (#[trigger] self.record_of(coord)) is Some && !self.spec_retention().contains(coord)
                implies self.record_of(coord)->0.residency is EvictPending by {
                let j = choose|j: int| 0 <= j < self.records@.len() && #[trigger] self.records@[j].coord == coord;
                lemma_record_at(self.records@, j);
            }
            assert forall|coord: ChunkCoord| (#[trigger] self.record_of(coord)) is Some implies start.record_of(
                coord,
            ) is Some || self.spec_dependency().contains(coord) by {
                assert(spec_record(lodded.records@, coord) is Some);
                assert(spec_record(created.records@, coord) is Some);
                if !self.spec_dependency().contains(coord) {
                    assert(!retired.spec_dependency().contains(coord));
                    assert(created.record_of(coord) == retired.record_of(coord));
                    assert(spec_record(retired.records@, coord) is Some);
                    assert(spec_record(moved.records@, coord) is Some);
                }
            }
            lemma_demand_sets_nest(center, self.config);
            assert forall|coord: ChunkCoord| #[trigger] self.spec_render().contains(coord) implies self.record_of(
                coord,
            )->0.lod == spec_lod_at(
                self.config,
                center,
                coord,
                Some(
                    if live(start.records@, coord) {
                        start.record_of(coord)->0.lod
                    } else {
                        spec_lod_at(self.config, center, coord, None)
                    },
                ),
            ) by {
                assert(self.spec_dependency().contains(coord));
                assert(created.spec_dependency().contains(coord));
                assert(spec_record(created.records@, coord) is Some);
                let j = choose|j: int| 0 <= j < self.demand.render@.len() && self.demand.render@[j] == coord;
                assert(self.demand.render@[j] == coord);
                assert(lodded.demand.render@[j] == coord);
                assert(spec_record(lodded.records@, coord)->0.lod == spec_lod_at(
                    self.config,
                    center,
                    coord,
                    Some(spec_record(created.records@, coord)->0.lod),
                ));
                assert(coord_set(retired.demand.dependency@).contains(coord));
                if live(retired.records@, coord) {
                    assert(same_standing(retired.records@, created.records@, coord));
                    assert(same_standing(start.records@, retired.records@, coord));
                } else {
                    assert(!live(start.records@, coord));
                }
            }
        }
        Ok(())
    }


    /// Releases at most `max_cpu_evictions_per_update` retiring records, the
    /// first ones in record order. A retiring record that still owns a chunk
    /// keeps counting against the hard cap until it is released, so a large
    /// backlog throttles new loads instead of breaching the cap.
    pub fn finalize_evictions(&mut self)
        requires
            old(self).wf(),
        ensures
            final(self).wf(),
            final(self).spec_records() == spec_release(
                old(self).spec_records(),
                old(self).spec_config().max_cpu_evictions_per_update as nat,
            ),
            old(self).spec_records().len() - final(self).spec_records().len()
                <= old(self).spec_config().max_cpu_evictions_per_update,
            final(self).spec_config() == old(self).spec_config(),
            final(self).spec_center() == old(self).spec_center(),
            final(self).spec_demand() == old(self).spec_demand(),
            final(self).spec_reserved() == old(self).spec_reserved(),
            final(self).spec_in_flight() == old(self).spec_in_flight(),
            final(self).spec_load_queue() == old(self).spec_load_queue(),
            final(self).spec_mesh_queue() == old(self).spec_mesh_queue(),
            final(self).spec_metrics().cpu_evictions_finalized == vstd::wrapping::u64_specs::wrapping_add(
                old(self).spec_metrics().cpu_evictions_finalized,
                (old(self).spec_records().len() - final(self).spec_records().len()) as u64,
            ),
    {
        let budget = self.config.max_cpu_evictions_per_update;
        let ghost start = *old(self);
        let ghost records_before = self.records@;
        let mut released: usize = 0;
        let mut i: usize = 0;
        let ghost mut j: int = 0;
        proof {
            assert(records_before.skip(0) =~= records_before);
            assert(self.records@.take(0) + spec_release(records_before, budget as nat) =~= spec_release(
                records_before,
                budget as nat,
            ));
        }
        while i < self.records.len()
            invariant
                start == *old(self),
                self.wf(),
                self.config == start.config,
                self.center == start.center,
                self.demand == start.demand,
                self.next_token == start.next_token,
                self.reserved_load_slots@ == start.reserved_load_slots@,
                self.in_flight == start.in_flight,
                self.load_queue@ == start.load_queue@,
                self.mesh_queue@ == start.mesh_queue@,
                self.metrics == start.metrics,
                budget == self.config.max_cpu_evictions_per_update,
                records_before == start.records@,
                0 <= i <= j <= records_before.len(),
                released <= budget,
                released == j - i,
                self.records@.len() == records_before.len() - released,
                self.records@.skip(i as int) == records_before.skip(j),
                self.records@.take(i as int) + spec_release(records_before.skip(j), (budget - released) as nat)
                    == spec_release(records_before, budget as nat),
            decreases records_before.len() - j,
        {
            let retiring = match self.records[i].residency {
                ResidencyState::EvictPending(_) => true,
                _ => false,
            };
            proof {
                assert(self.records@[i as int] == records_before[j]) by {
                    assert(self.records@.skip(i as int)[0] == records_before.skip(j)[0]);
                }
                assert(records_before.skip(j).skip(1) =~= records_before.skip(j + 1));
            }
            if retiring && released < budget {
                let ghost before = *self;
                let _ = self.records.remove(i);
                proof {
                    Self::lemma_wf_remove(&before, self, i as int);
                    assert(self.records@.skip(i as int) =~= records_before.skip(j + 1));
                    assert(self.records@.take(i as int) =~= before.records@.take(i as int));
                    j = j + 1;
                }
                released = released + 1;
            } else {
                proof {
                    let b = (budget - released) as nat;
                    assert(spec_release(records_before.skip(j), b) == seq![records_before[j]] + spec_release(
                        records_before.skip(j + 1),
                        b,
                    ));
                    assert(self.records@.take(i + 1) =~= self.records@.take(i as int).push(records_before[j]));
                    assert(self.records@.take(i + 1) + spec_release(records_before.skip(j + 1), b) =~= self.records@.take(
                        i as int,
                    ) + (seq![records_before[j]] + spec_release(records_before.skip(j + 1), b)));
                    assert(self.records@.skip(i + 1) =~= records_before.skip(j + 1)) by {
                        assert(self.records@.skip(i + 1) =~= self.records@.skip(i as int).skip(1));
                    }
                    j = j + 1;
                }
                i = i + 1;
            }
        }
        proof {
            assert(records_before.skip(j).len() == 0);
            assert(spec_release(records_before.skip(j), (budget - released) as nat) =~= records_before.skip(j));
            assert(self.records@.take(i as int) =~= self.records@);
            assert(self.records@ =~= spec_release(records_before, budget as nat));
        }
        self.metrics.cpu_evictions_finalized = self.metrics.cpu_evictions_finalized.wrapping_add(
            released as u64,
        );
        if released == budget && self.eviction_backlog() > 0 {
            self.metrics.eviction_budget_hits = self.metrics.eviction_budget_hits.wrapping_add(1);
        }
    }


    /// Whether some other coordinate's record is loading under `token`.
    fn loading_elsewhere(&self, coord: ChunkCoord, token: RequestToken) -> (found: bool)
        ensures
            found == exists|i: int|
                0 <= i < self.records@.len() && (#[trigger] self.records@[i]).token == token
                    && self.records@[i].coord != coord && self.records@[i].residency is Loading,
    {
        let mut i: usize = 0;
        while i < self.records.len()
            invariant
                i <= self.records@.len(),
                forall|k: int|
                    0 <= k < i ==> !((#[trigger] self.records@[k]).token == token
                        && self.records@[k].coord != coord && self.records@[k].residency is Loading),
            decreases self.records@.len() - i,
        {
            let loading = match self.records[i].residency {
                ResidencyState::Loading => true,
                _ => false,
            };
            if self.records[i].token == token && self.records[i].coord != coord && loading {
                return true;
            }
            i = i + 1;
        }
        false
    }

    /// Takes in the result of a load. Its reservation is released; it is
    /// accepted only by the record of its coordinate that is loading under
    /// its token, which becomes resident (content generation one) or known
    /// absent and has its mesh and its neighbors' meshes invalidated for a
    /// data change. Any other result is stale and counted. A result whose
    /// token names another coordinate's load in flight is stale and leaves
    /// that load's reservation alone.
    pub fn integrate_load(&mut self, coord: ChunkCoord, token: RequestToken, source: SourceChunk) -> (result: Result<(), RuntimeError>)
        requires
            old(self).wf(),
        ensures
            result is Ok ==> final(self).wf(),
            final(self).wf_core(),
            result is Err ==> result->Err_0 is GenerationExhausted,
            final(self).spec_config() == old(self).spec_config(),
            final(self).spec_center() == old(self).spec_center(),
            final(self).spec_demand() == old(self).spec_demand(),
            final(self).spec_in_flight() == old(self).spec_in_flight(),
            ({
                let accepted = match old(self).record_of(coord) {
                    Some(record) => record.token == token && record.residency is Loading,
                    None => false,
                };
                let elsewhere = exists|i: int|
                    0 <= i < old(self).spec_records().len() && (#[trigger] old(
                        self,
                    ).spec_records()[i]).token == token && old(self).spec_records()[i].coord != coord
                        && old(self).spec_records()[i].residency is Loading;
                let reserved = old(self).spec_reserved();
                &&& (elsewhere || !reserved.contains(token)) ==> final(self).spec_reserved()
                    == reserved
                &&& (!elsewhere && reserved.contains(token)) ==> exists|k: int|
                    0 <= k < reserved.len() && reserved[k] == token && final(self).spec_reserved()
                        == reserved.remove(k)
                &&& !accepted ==> final(self).spec_records() == old(self).spec_records()
                    && final(self).spec_metrics().stale_load_results
                    == vstd::wrapping::u64_specs::wrapping_add(
                    old(self).spec_metrics().stale_load_results,
                    1,
                )
                &&& accepted && result is Ok ==> {
                    &&& final(self).record_of(coord) is Some
                    &&& final(self).record_of(coord)->0.residency == match source {
                        SourceChunk::Present(chunk) => ResidencyState::CpuResident {
                            chunk,
                            content_generation: 1,
                        },
                        SourceChunk::KnownAbsent => ResidencyState::KnownAbsent,
                    }
                    &&& final(self).record_of(coord)->0.token == token
                }
                &&& accepted ==> {
                    let loaded = ChunkRecord {
                        residency: match source {
                            SourceChunk::Present(chunk) => ResidencyState::CpuResident {
                                chunk,
                                content_generation: 1,
                            },
                            SourceChunk::KnownAbsent => ResidencyState::KnownAbsent,
                        },
                        ..old(self).record_of(coord)->0
                    };
                    &&& (result is Ok) == spec_mesh_invalidable(&*old(self), Some(loaded), coord)
                    &&& result is Ok ==> spec_invalidated_around(
                        &*old(self),
                        Some(loaded),
                        &*final(self),
                        coord,
                        InvalidationCause::Data,
                    )
                }
            }),
    {
        let elsewhere = self.loading_elsewhere(coord, token);
        let ghost start = *old(self);
        if !elsewhere {
            match token_reserved(&self.reserved_load_slots, token) {
                Some(k) => {
                    let _ = self.reserved_load_slots.remove(k);
                },
                None => {},
            }
        }
        let ghost released = self.reserved_load_slots@;
        proof {
            assert(released.no_duplicates()) by {
                assert forall|a: int, b: int| 0 <= a < b < released.len() implies released[a]
                    != released[b] by {
                    if released != start.reserved_load_slots@ {
                        let k = choose|k: int|
                            0 <= k < start.reserved_load_slots@.len()
                                && start.reserved_load_slots@[k] == token && released
                                == start.reserved_load_slots@.remove(k);
                    }
                }
            }
            assert(released.len() <= start.reserved_load_slots@.len());
            assert forall|j: int|
                0 <= j < self.records@.len() && (#[trigger] self.records@[j]).residency is Loading
                    && self.records@[j].token != token implies released.contains(self.records@[j].token) by {
                assert(start.reserved_load_slots@.contains(self.records@[j].token));
                let m = choose|m: int|
                    0 <= m < start.reserved_load_slots@.len() && start.reserved_load_slots@[m]
                        == self.records@[j].token;
                if released != start.reserved_load_slots@ {
                    let k = choose|k: int|
                        0 <= k < start.reserved_load_slots@.len() && start.reserved_load_slots@[k]
                            == token && released == start.reserved_load_slots@.remove(k);
                    assert(m != k);
                    if m < k {
                        assert(released[m] == self.records@[j].token);
                    } else {
                        assert(released[m - 1] == self.records@[j].token);
                    }
                }
            }
        }
        let found = self.find(coord);
        let accepted = match found {
            Some(i) => self.records[i].token == token && match self.records[i].residency {
                ResidencyState::Loading => true,
                _ => false,
            },
            None => false,
        };
        if !accepted {
            self.metrics.stale_load_results = self.metrics.stale_load_results.wrapping_add(1);
            proof {
                assert forall|j: int|
                    0 <= j < self.records@.len() && (#[trigger] self.records@[j]).residency is Loading
                    implies released.contains(self.records@[j].token) by {
                    if self.records@[j].token == token {
                        assert(self.records@[j].coord != coord) by {
                            if self.records@[j].coord == coord {
                                lemma_record_at(self.records@, j);
                            }
                        }
                        assert(elsewhere);
                        assert(start.reserved_load_slots@.contains(self.records@[j].token));
                    }
                }
                lemma_count_same_residency(start.records@, self.records@);
            }
            return Ok(());
        }
        let i = match found {
            Some(i) => i,
            None => return Ok(()),
        };
        let ghost before = *self;
        proof {
            assert(!elsewhere) by {
                if elsewhere {
                    let j = choose|j: int|
                        0 <= j < start.records@.len() && (#[trigger] start.records@[j]).token == token
                            && start.records@[j].coord != coord && start.records@[j].residency is Loading;
                    assert(j != i);
                    if j < i {
                        assert(start.records@[j].token != start.records@[i as int].token);
                    } else {
                        assert(start.records@[i as int].token != start.records@[j].token);
                    }
                }
            }
            assert(start.reserved_load_slots@.contains(token));
            assert(released.len() + 1 == start.reserved_load_slots@.len());
        }
        self.records[i].residency = match source {
            SourceChunk::Present(chunk) => ResidencyState::CpuResident { chunk, content_generation: 1 },
            SourceChunk::KnownAbsent => ResidencyState::KnownAbsent,
        };
        proof {
            let r = self.records@[i as int];
            assert(self.records@ =~= before.records@.update(i as int, r));
            lemma_record_update(before.records@, i as int, r);
            lemma_count_update(before.records@, Tally::Payload, i as int, r);
            let rs = self.records@;
            assert forall|x: int| 0 <= x < rs.len() implies (#[trigger] rs[x]).token.0 < self.next_token by {
                assert(before.records@[x].token == rs[x].token);
            }
            assert forall|x: int, y: int| 0 <= x < y < rs.len() implies (#[trigger] rs[x]).token != (
            #[trigger] rs[y]).token by {
                assert(before.records@[x].token == rs[x].token && before.records@[y].token == rs[y].token);
            }
            assert forall|x: int|
                0 <= x < rs.len() && (#[trigger] rs[x]).residency is Loading implies self.reserved_load_slots@.contains(
                rs[x].token,
            ) by {
                assert(x != i);
                assert(rs[x].token != token) by {
                    if x < i {
                        assert(before.records@[x].token != before.records@[i as int].token);
                    } else {
                        assert(before.records@[i as int].token != before.records@[x].token);
                    }
                }
            }
            assert forall|x: int|
                0 <= x < rs.len() && !((#[trigger] rs[x]).residency is EvictPending) implies coord_set(
                self.demand.retention@,
            ).contains(rs[x].coord) by {
                assert(!(before.records@[x].residency is EvictPending));
            }
            assert(self.wf());
        }
        self.metrics.accepted_load_results = self.metrics.accepted_load_results.wrapping_add(1);
        let ghost loaded = *self;
        proof {
            lemma_record_at(start.records@, i as int);
            assert(loaded.record_of(coord) == Some(self.records@[i as int]));
            assert(loaded.spec_render() == start.spec_render());
            assert forall|other: ChunkCoord| other != coord implies #[trigger] loaded.record_of(other)
                == start.record_of(other) by {}
            lemma_not_own_neighbor(coord);
        }
        let outcome = self.invalidate_around(coord, InvalidationCause::Data);
        proof {
            Self::lemma_mesh_frame(&loaded, self);
            lemma_residency_lookup(loaded.records@, self.records@);
        }
        outcome
    }


    /// Whether a stale mesh result is explained by a level change.
    fn is_lod_stale(&self, stamp: &MeshStamp) -> (stale: bool)
        requires
            records_sorted(self.records@),
        ensures
            stale == spec_lod_stale(self.records@, coord_set(self.demand.render@), *stamp),
    {
        let ghost render = coord_set(self.demand.render@);
        let i = match self.find(stamp.coord) {
            Some(i) => i,
            None => return false,
        };
        if self.records[i].lod != stamp.lod {
            return true;
        }
        let mut k: usize = 0;
        while k < 6
            invariant
                records_sorted(self.records@),
                render == coord_set(self.demand.render@),
                k <= 6,
                forall|m: int|
                    0 <= m < k ==> !match (
                        #[trigger] spec_neighbor_stamp(self.records@, render, stamp.coord, spec_face_at(m)),
                        stamp.neighbors[m],
                    ) {
                        (
                            Some(NeighborStamp::Resident { seam: current, .. }),
                            NeighborStamp::Resident { seam: previous, .. },
                        ) => current != previous,
                        _ => false,
                    },
            decreases 6 - k,
        {
            let face = Face::from_index(k);
            proof {
                assert(face == spec_face_at(k as int));
            }
            let current = self.neighbor_stamp(stamp.coord, face);
            let changed = match (current, stamp.neighbors[k]) {
                (
                    Some(NeighborStamp::Resident { seam: now, .. }),
                    NeighborStamp::Resident { seam: then, .. },
                ) => now != then,
                _ => false,
            };
            if changed {
                return true;
            }
            k = k + 1;
        }
        false
    }

    /// Takes in a mesh result for `stamp`, with the byte size of its payload
    /// and the worker's time inside the mesher. It is accepted only when the
    /// stamp is still the record's target and the record is meshing exactly
    /// it; the record then holds it ready. Any other result is dropped and
    /// counted stale, and also counted as a level staleness when a level
    /// change explains it.
    pub fn integrate_mesh(&mut self, stamp: MeshStamp, mesh: M, bytes: usize, mesh_us: u64)
        requires
            old(self).wf(),
        ensures
            final(self).wf(),
            mesh_frame(&*old(self), &*final(self)),
            final(self).spec_mesh_queue() == old(self).spec_mesh_queue(),
            ({
                let render = old(self).spec_render();
                let records = old(self).spec_records();
                let found = old(self).record_of(stamp.coord);
                let accepted = spec_target(records, render, stamp.coord, Some(stamp)) && match found {
                    Some(record) => record.mesh == MeshState::<M>::Meshing(stamp),
                    None => false,
                };
                &&& accepted ==> final(self).record_of(stamp.coord) == Some(
                    ChunkRecord {
                        mesh: MeshState::CpuReady { stamp, mesh, bytes },
                        ..old(self).record_of(stamp.coord)->0
                    },
                )
                &&& accepted ==> forall|other: ChunkCoord|
                    other != stamp.coord ==> #[trigger] final(self).record_of(other) == old(self).record_of(other)
                &&& !accepted ==> final(self).spec_records() == records
                &&& !accepted ==> final(self).spec_metrics().stale_mesh_results
                    == vstd::wrapping::u64_specs::wrapping_add(
                    old(self).spec_metrics().stale_mesh_results,
                    1,
                )
                &&& !accepted && spec_lod_stale(records, render, stamp) ==> final(self).spec_metrics().stale_lod_results == vstd::wrapping::u64_specs::wrapping_add(
                    old(self).spec_metrics().stale_lod_results,
                    1,
                )
            }),
    {
        match stamp.lod {
            LodLevel::Lod0 => if self.metrics.worker_mesh_lod0.count < u64::MAX {
                self.metrics.worker_mesh_lod0.record(mesh_us);
            },
            LodLevel::Lod1 => if self.metrics.worker_mesh_lod1.count < u64::MAX {
                self.metrics.worker_mesh_lod1.record(mesh_us);
            },
        }
        let ghost before = *self;
        let target = self.current_mesh_stamp(stamp.coord);
        let current = match &target {
            Some(target) => same_stamp(target, &stamp),
            None => false,
        };
        proof {
            if current {
                assert(target == Some(stamp));
            }
            if target == Some(stamp) {
                assert(current);
            }
            if spec_target(self.records@, coord_set(self.demand.render@), stamp.coord, Some(stamp)) {
                lemma_target_unique(
                    self.records@,
                    coord_set(self.demand.render@),
                    stamp.coord,
                    target,
                    Some(stamp),
                );
            }
        }
        let found = self.find(stamp.coord);
        let meshing = match found {
            Some(i) => match &self.records[i].mesh {
                MeshState::Meshing(active) => same_stamp(active, &stamp),
                _ => false,
            },
            None => false,
        };
        if !(current && meshing) {
            self.metrics.stale_mesh_results = self.metrics.stale_mesh_results.wrapping_add(1);
            if self.is_lod_stale(&stamp) {
                self.metrics.stale_lod_results = self.metrics.stale_lod_results.wrapping_add(1);
            }
            proof {
                Self::lemma_mesh_frame(&*old(self), self);
            }
            return;
        }
        let i = match found {
            Some(i) => i,
            None => return,
        };
        self.records[i].mesh = MeshState::CpuReady { stamp, mesh, bytes };
        proof {
            let r = self.records@[i as int];
            assert(self.records@ =~= before.records@.update(i as int, r));
            lemma_record_update(before.records@, i as int, r);
            assert(same_residency(before.records@, self.records@));
            Self::lemma_mesh_frame(&before, self);
            Self::lemma_mesh_frame(&*old(self), &before);
            Self::lemma_mesh_frame_trans(&*old(self), &before, self);
        }
        self.metrics.accepted_mesh_results = self.metrics.accepted_mesh_results.wrapping_add(1);
    }


    /// Pops queued loads until one is still valid; stale ones are dropped.
    fn pop_valid_load(&mut self) -> (popped: Option<LoadQueueEntry>)
        requires
            old(self).wf(),
        ensures
            final(self).wf(),
            final(self).records@ == old(self).records@,
            final(self).mesh_queue@ == old(self).mesh_queue@,
            final(self).config == old(self).config,
            final(self).center == old(self).center,
            final(self).demand == old(self).demand,
            final(self).next_token == old(self).next_token,
            final(self).reserved_load_slots@ == old(self).reserved_load_slots@,
            final(self).in_flight == old(self).in_flight,
            final(self).consecutive_mesh_dispatches == old(self).consecutive_mesh_dispatches,
            final(self).metrics == old(self).metrics,
            forall|x: LoadQueueEntry|
                #[trigger] final(self).load_queue@.contains(x) ==> old(self).load_queue@.contains(x),
            forall|x: LoadQueueEntry|
                #[trigger] old(self).load_queue@.contains(x) && !final(self).load_queue@.contains(x)
                    && popped != Some(x) ==> !spec_valid_load(
                    old(self).records@,
                    coord_set(old(self).demand.dependency@),
                    x,
                ),
            match popped {
                Some(entry) => {
                    &&& old(self).load_queue@.contains(entry)
                    &&& spec_valid_load(old(self).records@, coord_set(old(self).demand.dependency@), entry)
                    &&& forall|x: LoadQueueEntry|
                        #[trigger] final(self).load_queue@.contains(x) ==> load_precedes(entry, x)
                },
                None => final(self).load_queue@.len() == 0,
            },
    {
        let ghost start = self.load_queue@;
        let ghost dependency = coord_set(self.demand.dependency@);
        loop
            invariant
                self.wf(),
                self.records@ == old(self).records@,
                self.mesh_queue@ == old(self).mesh_queue@,
                self.config == old(self).config,
                self.center == old(self).center,
                self.demand == old(self).demand,
                self.next_token == old(self).next_token,
                self.reserved_load_slots@ == old(self).reserved_load_slots@,
                self.in_flight == old(self).in_flight,
                self.consecutive_mesh_dispatches == old(self).consecutive_mesh_dispatches,
                self.metrics == old(self).metrics,
                start == old(self).load_queue@,
                dependency == coord_set(self.demand.dependency@),
                forall|x: LoadQueueEntry| #[trigger] self.load_queue@.contains(x) ==> start.contains(x),
                forall|x: LoadQueueEntry|
                    #[trigger] start.contains(x) && !self.load_queue@.contains(x) ==> !spec_valid_load(
                        self.records@,
                        dependency,
                        x,
                    ),
            decreases self.load_queue@.len(),
        {
            let ghost before = self.load_queue@;
            match pop_load(&mut self.load_queue) {
                None => {
                    return None;
                },
                Some(entry) => {
                    let valid = match self.find(entry.coord) {
                        Some(i) => self.records[i].token == entry.token && match self.records[i].residency {
                            ResidencyState::LoadQueued => true,
                            _ => false,
                        } && holds_coord(&self.demand.dependency, entry.coord),
                        None => false,
                    };
                    proof {
                        let k = choose|k: int|
                            0 <= k < before.len() && before[k] == entry && self.load_queue@
                                == before.remove(k) && forall|j: int|
                                0 <= j < before.len() ==> load_precedes(entry, #[trigger] before[j]);
                        assert forall|x: LoadQueueEntry| #[trigger] self.load_queue@.contains(x) implies before.contains(
                            x,
                        ) && load_precedes(entry, x) by {
                            let m = choose|m: int| 0 <= m < self.load_queue@.len() && self.load_queue@[m] == x;
                            if m < k {
                                assert(before[m] == x);
                            } else {
                                assert(before[m + 1] == x);
                            }
                        }
                        assert forall|x: LoadQueueEntry|
                            #[trigger] before.contains(x) && !self.load_queue@.contains(x) && x != entry implies false by {
                            let m = choose|m: int| 0 <= m < before.len() && before[m] == x;
                            assert(m != k);
                            if m < k {
                                assert(self.load_queue@[m] == x);
                            } else {
                                assert(self.load_queue@[m - 1] == x);
                            }
                        }
                        assert(valid == spec_valid_load(self.records@, dependency, entry));
                        assert(before.contains(entry));
                    }
                    if valid {
                        return Some(entry);
                    }
                },
            }
        }
    }

    /// Pops queued mesh jobs until one is still valid; stale ones are dropped.
    fn pop_valid_mesh(&mut self) -> (popped: Option<MeshQueueEntry>)
        requires
            old(self).wf(),
        ensures
            final(self).wf(),
            final(self).records@ == old(self).records@,
            final(self).load_queue@ == old(self).load_queue@,
            final(self).config == old(self).config,
            final(self).center == old(self).center,
            final(self).demand == old(self).demand,
            final(self).next_token == old(self).next_token,
            final(self).reserved_load_slots@ == old(self).reserved_load_slots@,
            final(self).in_flight == old(self).in_flight,
            final(self).consecutive_mesh_dispatches == old(self).consecutive_mesh_dispatches,
            final(self).metrics == old(self).metrics,
            forall|x: MeshQueueEntry|
                #[trigger] final(self).mesh_queue@.contains(x) ==> old(self).mesh_queue@.contains(x),
            forall|x: MeshQueueEntry|
                #[trigger] old(self).mesh_queue@.contains(x) && !final(self).mesh_queue@.contains(x)
                    && popped != Some(x) ==> !spec_valid_mesh(old(self).records@, x),
            match popped {
                Some(entry) => {
                    &&& old(self).mesh_queue@.contains(entry)
                    &&& spec_valid_mesh(old(self).records@, entry)
                    &&& forall|x: MeshQueueEntry|
                        #[trigger] final(self).mesh_queue@.contains(x) ==> mesh_precedes(entry, x)
                },
                None => final(self).mesh_queue@.len() == 0,
            },
    {
        let ghost start = self.mesh_queue@;
        loop
            invariant
                self.wf(),
                self.records@ == old(self).records@,
                self.load_queue@ == old(self).load_queue@,
                self.config == old(self).config,
                self.center == old(self).center,
                self.demand == old(self).demand,
                self.next_token == old(self).next_token,
                self.reserved_load_slots@ == old(self).reserved_load_slots@,
                self.in_flight == old(self).in_flight,
                self.consecutive_mesh_dispatches == old(self).consecutive_mesh_dispatches,
                self.metrics == old(self).metrics,
                start == old(self).mesh_queue@,
                forall|x: MeshQueueEntry| #[trigger] self.mesh_queue@.contains(x) ==> start.contains(x),
                forall|x: MeshQueueEntry|
                    #[trigger] start.contains(x) && !self.mesh_queue@.contains(x) ==> !spec_valid_mesh(
                        self.records@,
                        x,
                    ),
            decreases self.mesh_queue@.len(),
        {
            let ghost before = self.mesh_queue@;
            match pop_mesh(&mut self.mesh_queue) {
                None => {
                    return None;
                },
                Some(entry) => {
                    let valid = match self.find(entry.coord) {
                        Some(i) => self.records[i].token == entry.token && match &self.records[i].mesh {
                            MeshState::Dirty(stamp) => stamp.mesh_generation == entry.mesh_generation,
                            _ => false,
                        },
                        None => false,
                    };
                    proof {
                        let k = choose|k: int|
                            0 <= k < before.len() && before[k] == entry && self.mesh_queue@
                                == before.remove(k) && forall|j: int|
                                0 <= j < before.len() ==> mesh_precedes(entry, #[trigger] before[j]);
                        assert forall|x: MeshQueueEntry| #[trigger] self.mesh_queue@.contains(x) implies before.contains(
                            x,
                        ) && mesh_precedes(entry, x) by {
                            let m = choose|m: int| 0 <= m < self.mesh_queue@.len() && self.mesh_queue@[m] == x;
                            if m < k {
                                assert(before[m] == x);
                            } else {
                                assert(before[m + 1] == x);
                            }
                        }
                        assert forall|x: MeshQueueEntry|
                            #[trigger] before.contains(x) && !self.mesh_queue@.contains(x) && x != entry implies false by {
                            let m = choose|m: int| 0 <= m < before.len() && before[m] == x;
                            assert(m != k);
                            if m < k {
                                assert(self.mesh_queue@[m] == x);
                            } else {
                                assert(self.mesh_queue@[m - 1] == x);
                            }
                        }
                        assert(valid == spec_valid_mesh(self.records@, entry));
                        assert(before.contains(entry));
                    }
                    if valid {
                        return Some(entry);
                    }
                },
            }
        }
    }


    /// Decides what the worker should be handed next: the first valid mesh
    /// job and the first valid load are weighed by [`choose_dispatch`]; the
    /// one not chosen goes back to its queue. A load the hard cap does not
    /// admit goes back too, and a mesh job whose record has no target any
    /// more is dropped. Records do not change.
    pub fn next_job(&mut self) -> (job: Job)
        requires
            old(self).wf(),
        ensures
            final(self).wf(),
            final(self).spec_records() == old(self).spec_records(),
            final(self).spec_config() == old(self).spec_config(),
            final(self).spec_center() == old(self).spec_center(),
            final(self).spec_demand() == old(self).spec_demand(),
            final(self).spec_reserved() == old(self).spec_reserved(),
            final(self).spec_in_flight() == old(self).spec_in_flight(),
            final(self).spec_consecutive_meshes() == old(self).spec_consecutive_meshes(),
            exists|mesh: Option<MeshQueueEntry>, load: Option<LoadQueueEntry>|
                #![trigger spec_first_mesh(old(self).spec_records(), old(self).spec_mesh_queue(), mesh), spec_first_load(old(self).spec_records(), old(self).spec_dependency(), old(self).spec_load_queue(), load)]
                spec_first_mesh(old(self).spec_records(), old(self).spec_mesh_queue(), mesh)
                    && spec_first_load(
                    old(self).spec_records(),
                    old(self).spec_dependency(),
                    old(self).spec_load_queue(),
                    load,
                ) && match spec_choose_dispatch(
                    match mesh {
                        Some(entry) => Some(entry.lod),
                        None => None,
                    },
                    load is Some,
                    old(self).spec_consecutive_meshes(),
                ) {
                    Dispatch::Load => if old(self).committed_residency()
                        < old(self).spec_config().hard_resident_cap {
                        job == Job::Load { entry: load->0 }
                    } else {
                        job == Job::Idle
                    },
                    Dispatch::Mesh => match job {
                        Job::Mesh { entry, stamp } => entry == mesh->0 && spec_target(
                            old(self).spec_records(),
                            old(self).spec_render(),
                            entry.coord,
                            Some(stamp),
                        ),
                        Job::Idle => spec_target(
                            old(self).spec_records(),
                            old(self).spec_render(),
                            mesh->0.coord,
                            None,
                        ),
                        Job::Load { .. } => false,
                    },
                    Dispatch::Idle => job == Job::Idle,
                } && final(self).spec_metrics() == if spec_choose_dispatch(
                    match mesh {
                        Some(entry) => Some(entry.lod),
                        None => None,
                    },
                    load is Some,
                    old(self).spec_consecutive_meshes(),
                ) is Load {
                    RuntimeMetrics {
                        fairness_load_dispatches: if mesh is Some && mesh->0.lod == LodLevel::Lod0 {
                            vstd::wrapping::u64_specs::wrapping_add(
                                old(self).spec_metrics().fairness_load_dispatches,
                                1,
                            )
                        } else {
                            old(self).spec_metrics().fairness_load_dispatches
                        },
                        hard_cap_blocks: if load is Some && old(self).committed_residency()
                            >= old(self).spec_config().hard_resident_cap {
                            vstd::wrapping::u64_specs::wrapping_add(old(self).spec_metrics().hard_cap_blocks, 1)
                        } else {
                            old(self).spec_metrics().hard_cap_blocks
                        },
                        ..old(self).spec_metrics()
                    }
                } else {
                    old(self).spec_metrics()
                },
    {
        let ghost start = *old(self);
        let mesh = self.pop_valid_mesh();
        let load = self.pop_valid_load();
        proof {
            assert(spec_first_mesh(start.records@, start.mesh_queue@, mesh)) by {
                if let Some(entry) = mesh {
                    assert forall|x: MeshQueueEntry|
                        #[trigger] start.mesh_queue@.contains(x) && spec_valid_mesh(start.records@, x)
                        implies mesh_precedes(entry, x) by {
                        if x != entry {
                            assert(self.mesh_queue@.contains(x));
                        } else {
                            assert(mesh_precedes(entry, entry));
                        }
                    }
                }
            }
            assert(spec_first_load(
                start.records@,
                coord_set(start.demand.dependency@),
                start.load_queue@,
                load,
            )) by {
                if let Some(entry) = load {
                    assert forall|x: LoadQueueEntry|
                        #[trigger] start.load_queue@.contains(x) && spec_valid_load(
                            start.records@,
                            coord_set(start.demand.dependency@),
                            x,
                        ) implies load_precedes(entry, x) by {
                        if x != entry {
                            assert(self.load_queue@.contains(x));
                        }
                    }
                }
            }
        }
        proof {
            assert(spec_first_mesh(old(self).spec_records(), old(self).spec_mesh_queue(), mesh));
            assert(spec_first_load(
                old(self).spec_records(),
                old(self).spec_dependency(),
                old(self).spec_load_queue(),
                load,
            ));
            assert(old(self).committed_residency() == count_records(self.records@, Tally::Payload)
                + self.reserved_load_slots@.len());
        }
        let level = match mesh {
            Some(entry) => Some(entry.lod),
            None => None,
        };
        let choice = choose_dispatch(level, load.is_some(), self.consecutive_mesh_dispatches);
        match choice {
            Dispatch::Load => {
                match mesh {
                    Some(entry) => {
                        if entry.lod == LodLevel::Lod0 {
                            self.metrics.fairness_load_dispatches = self.metrics.fairness_load_dispatches.wrapping_add(1);
                        }
                        self.mesh_queue.push(entry);
                    },
                    None => {},
                }
                match load {
                    Some(entry) => {
                        let payload = self.resident_payload_count();
                        if payload + self.reserved_load_slots.len() >= self.config.hard_resident_cap {
                            self.metrics.hard_cap_blocks = self.metrics.hard_cap_blocks.wrapping_add(1);
                            self.load_queue.push(entry);
                            Job::Idle
                        } else {
                            Job::Load { entry }
                        }
                    },
                    None => Job::Idle,
                }
            },
            Dispatch::Mesh => {
                match load {
                    Some(entry) => {
                        self.load_queue.push(entry);
                    },
                    None => {},
                }
                match mesh {
                    Some(entry) => match self.current_mesh_stamp(entry.coord) {
                        Some(stamp) => Job::Mesh { entry, stamp },
                        None => Job::Idle,
                    },
                    None => Job::Idle,
                }
            },
            Dispatch::Idle => Job::Idle,
        }
    }

    /// The worker took a load: its record is reserved a slot and loading,
    /// if it is still waiting for that load and the hard cap admits it.
    pub fn load_dispatched(&mut self, entry: LoadQueueEntry)
        requires
            old(self).wf(),
        ensures
            final(self).wf(),
            final(self).spec_in_flight() == Some(InFlight::Load),
            final(self).spec_consecutive_meshes() == 0,
            final(self).spec_config() == old(self).spec_config(),
            final(self).spec_center() == old(self).spec_center(),
            final(self).spec_demand() == old(self).spec_demand(),
            final(self).spec_load_queue() == old(self).spec_load_queue(),
            final(self).spec_mesh_queue() == old(self).spec_mesh_queue(),
            final(self).spec_metrics() == (RuntimeMetrics {
                load_jobs_dispatched: vstd::wrapping::u64_specs::wrapping_add(
                    old(self).spec_metrics().load_jobs_dispatched,
                    1,
                ),
                ..old(self).spec_metrics()
            }),
            if spec_valid_load(old(self).spec_records(), old(self).spec_dependency(), entry)
                && old(self).committed_residency() < old(self).spec_config().hard_resident_cap {
                &&& final(self).record_of(entry.coord) == Some(
                    ChunkRecord {
                        residency: ResidencyState::Loading,
                        ..old(self).record_of(entry.coord)->0
                    },
                )
                &&& forall|other: ChunkCoord|
                    other != entry.coord ==> #[trigger] final(self).record_of(other) == old(
                        self,
                    ).record_of(other)
                &&& final(self).spec_reserved().contains(entry.token)
                &&& final(self).committed_residency() <= old(self).committed_residency() + 1
            } else {
                &&& final(self).spec_records() == old(self).spec_records()
                &&& final(self).spec_reserved() == old(self).spec_reserved()
            },
    {
        let ghost start = *old(self);
        let found = self.find(entry.coord);
        let payload = self.resident_payload_count();
        let admitted = payload + self.reserved_load_slots.len() < self.config.hard_resident_cap;
        let waiting = match found {
            Some(i) => self.records[i].token == entry.token && match self.records[i].residency {
                ResidencyState::LoadQueued => true,
                _ => false,
            } && holds_coord(&self.demand.dependency, entry.coord),
            None => false,
        };
        if waiting && admitted {
            let i = match found {
                Some(i) => i,
                None => return,
            };
            if token_reserved(&self.reserved_load_slots, entry.token).is_none() {
                self.reserved_load_slots.push(entry.token);
            }
            let ghost reserved = *self;
            self.records[i].residency = ResidencyState::Loading;
            proof {
                let r = self.records@[i as int];
                let before = reserved.records@;
                assert(self.records@ =~= before.update(i as int, r));
                lemma_record_update(before, i as int, r);
                lemma_count_update(before, Tally::Payload, i as int, r);
                let rs = self.records@;
                assert(self.reserved_load_slots@.no_duplicates()) by {
                    assert forall|a: int, b: int| 0 <= a < b < self.reserved_load_slots@.len() implies self.reserved_load_slots@[a]
                        != self.reserved_load_slots@[b] by {
                        if self.reserved_load_slots@ != start.reserved_load_slots@ {
                            assert(self.reserved_load_slots@ == start.reserved_load_slots@.push(entry.token));
                            if b == start.reserved_load_slots@.len() {
                                assert(start.reserved_load_slots@.contains(start.reserved_load_slots@[a]));
                            }
                        }
                    }
                }
                assert forall|x: int| 0 <= x < rs.len() implies (#[trigger] rs[x]).token.0 < self.next_token by {
                    assert(before[x].token == rs[x].token);
                }
                assert forall|x: int, y: int| 0 <= x < y < rs.len() implies (#[trigger] rs[x]).token != (
                #[trigger] rs[y]).token by {
                    assert(before[x].token == rs[x].token && before[y].token == rs[y].token);
                }
                assert forall|x: int|
                    0 <= x < rs.len() && (#[trigger] rs[x]).residency is Loading implies self.reserved_load_slots@.contains(
                    rs[x].token,
                ) by {
                    if x != i {
                        assert(start.reserved_load_slots@.contains(rs[x].token));
                        let m = choose|m: int| 0 <= m < start.reserved_load_slots@.len() && start.reserved_load_slots@[m] == rs[x].token;
                        assert(self.reserved_load_slots@[m] == rs[x].token);
                    } else {
                        assert(self.reserved_load_slots@.contains(entry.token)) by {
                            if self.reserved_load_slots@ != start.reserved_load_slots@ {
                                assert(self.reserved_load_slots@.last() == entry.token);
                            }
                        }
                    }
                }
                assert forall|x: int|
                    0 <= x < rs.len() && !((#[trigger] rs[x]).residency is EvictPending) implies coord_set(
                    self.demand.retention@,
                ).contains(rs[x].coord) by {
                    assert(!(before[x].residency is EvictPending));
                }
                assert(self.wf());
            }
        }
        self.in_flight = Some(InFlight::Load);
        self.consecutive_mesh_dispatches = 0;
        self.metrics.load_jobs_dispatched = self.metrics.load_jobs_dispatched.wrapping_add(1);
    }


    /// The worker refused a load: it goes back to its queue.
    pub fn load_refused(&mut self, entry: LoadQueueEntry)
        requires
            old(self).wf(),
        ensures
            final(self).wf(),
            final(self).spec_records() == old(self).spec_records(),
            final(self).spec_load_queue() == old(self).spec_load_queue().push(entry),
            final(self).spec_mesh_queue() == old(self).spec_mesh_queue(),
            final(self).spec_reserved() == old(self).spec_reserved(),
            final(self).spec_in_flight() == old(self).spec_in_flight(),
    {
        self.load_queue.push(entry);
    }

    /// The worker refused a mesh job: it goes back to its queue.
    pub fn mesh_refused(&mut self, entry: MeshQueueEntry)
        requires
            old(self).wf(),
        ensures
            final(self).wf(),
            final(self).spec_records() == old(self).spec_records(),
            final(self).spec_mesh_queue() == old(self).spec_mesh_queue().push(entry),
            final(self).spec_load_queue() == old(self).spec_load_queue(),
            final(self).spec_reserved() == old(self).spec_reserved(),
            final(self).spec_in_flight() == old(self).spec_in_flight(),
    {
        self.mesh_queue.push(entry);
    }

    /// Records the cost of building a mesh snapshot: the whole build and the
    /// part spent deriving coarse data, which counts for every coarse job and
    /// for any full-detail job that derived some.
    pub fn record_snapshot(&mut self, lod: LodLevel, build_us: u64, derivation_us: u64)
        requires
            old(self).wf(),
        ensures
            final(self).wf(),
            mesh_frame(&*old(self), &*final(self)),
            final(self).spec_records() == old(self).spec_records(),
            final(self).spec_mesh_queue() == old(self).spec_mesh_queue(),
            final(self).spec_metrics() == (RuntimeMetrics {
                snapshot_build: spec_timing_recorded(old(self).spec_metrics().snapshot_build, build_us),
                lod1_derivation: if lod == LodLevel::Lod1 || derivation_us > 0 {
                    spec_timing_recorded(old(self).spec_metrics().lod1_derivation, derivation_us)
                } else {
                    old(self).spec_metrics().lod1_derivation
                },
                ..old(self).spec_metrics()
            }),
    {
        if self.metrics.snapshot_build.count < u64::MAX {
            self.metrics.snapshot_build.record(build_us);
        }
        if (lod == LodLevel::Lod1 || derivation_us > 0) && self.metrics.lod1_derivation.count < u64::MAX {
            self.metrics.lod1_derivation.record(derivation_us);
        }
        proof {
            Self::lemma_mesh_frame(&*old(self), self);
        }
    }

    /// The worker took a mesh job of `snapshot_bytes`: the record is meshing
    /// its stamp.
    pub fn mesh_dispatched(&mut self, entry: MeshQueueEntry, stamp: MeshStamp, snapshot_bytes: usize)
        requires
            old(self).wf(),
        ensures
            final(self).wf(),
            final(self).spec_in_flight() == Some(InFlight::Mesh),
            final(self).spec_consecutive_meshes() == if old(self).spec_consecutive_meshes() == u8::MAX {
                u8::MAX
            } else {
                (old(self).spec_consecutive_meshes() + 1) as u8
            },
            final(self).spec_mesh_queue() == old(self).spec_mesh_queue(),
            final(self).spec_load_queue() == old(self).spec_load_queue(),
            final(self).spec_reserved() == old(self).spec_reserved(),
            final(self).spec_metrics() == (RuntimeMetrics {
                mesh_jobs_dispatched: vstd::wrapping::u64_specs::wrapping_add(
                    old(self).spec_metrics().mesh_jobs_dispatched,
                    1,
                ),
                snapshot_bytes_dispatched: vstd::wrapping::u64_specs::wrapping_add(
                    old(self).spec_metrics().snapshot_bytes_dispatched,
                    snapshot_bytes as u64,
                ),
                ..old(self).spec_metrics()
            }),
            same_residency(old(self).spec_records(), final(self).spec_records()),
            match old(self).record_of(entry.coord) {
                Some(record) => final(self).record_of(entry.coord) == Some(
                    ChunkRecord { mesh: MeshState::Meshing(stamp), ..record },
                ),
                None => final(self).spec_records() == old(self).spec_records(),
            },
            forall|other: ChunkCoord|
                other != entry.coord ==> #[trigger] final(self).record_of(other) == old(self).record_of(other),
    {
        let ghost start = *old(self);
        match self.find(entry.coord) {
            Some(i) => {
                self.records[i].mesh = MeshState::Meshing(stamp);
                proof {
                    let r = self.records@[i as int];
                    assert(self.records@ =~= start.records@.update(i as int, r));
                    lemma_record_update(start.records@, i as int, r);
                }
            },
            None => {},
        }
        proof {
            assert(same_residency(start.records@, self.records@));
            Self::lemma_mesh_frame(&start, self);
        }
        self.in_flight = Some(InFlight::Mesh);
        self.consecutive_mesh_dispatches = self.consecutive_mesh_dispatches.saturating_add(1);
        self.metrics.mesh_jobs_dispatched = self.metrics.mesh_jobs_dispatched.wrapping_add(1);
        self.metrics.snapshot_bytes_dispatched = self.metrics.snapshot_bytes_dispatched.wrapping_add(
            snapshot_bytes as u64,
        );
    }

    /// A result came back: the worker is free.
    pub fn job_finished(&mut self)
        requires
            old(self).wf(),
        ensures
            final(self).wf(),
            final(self).spec_in_flight() is None,
            final(self).spec_records() == old(self).spec_records(),
            final(self).spec_load_queue() == old(self).spec_load_queue(),
            final(self).spec_mesh_queue() == old(self).spec_mesh_queue(),
            final(self).spec_reserved() == old(self).spec_reserved(),
    {
        self.in_flight = None;
    }

    /// Which kind of job the worker holds.
    pub fn in_flight(&self) -> (in_flight: Option<InFlight>)
        ensures
            in_flight == self.spec_in_flight(),
    {
        self.in_flight
    }

    /// Replaces the resident content of `coord`. Every mesh built from the
    /// old content, the committed one included, is invalid at once: its
    /// content generation moves on and its mesh and its neighbors' meshes
    /// are invalidated for a data change. Answers whether `coord` was
    /// resident.
    pub fn replace_content(&mut self, coord: ChunkCoord, chunk: Chunk) -> (result: Result<bool, RuntimeError>)
        requires
            old(self).wf(),
        ensures
            final(self).wf_core(),
            result is Ok ==> final(self).wf(),
            final(self).spec_config() == old(self).spec_config(),
            final(self).spec_center() == old(self).spec_center(),
            final(self).spec_demand() == old(self).spec_demand(),
            final(self).spec_reserved() == old(self).spec_reserved(),
            match old(self).record_of(coord) {
                Some(record) => match record.residency {
                    ResidencyState::CpuResident { content_generation, .. } => {
                        let updated = ChunkRecord {
                            residency: ResidencyState::CpuResident {
                                chunk,
                                content_generation: (content_generation + 1) as u64,
                            },
                            ..record
                        };
                        &&& (result is Ok) == (content_generation < u64::MAX && spec_mesh_invalidable(
                            &*old(self),
                            Some(updated),
                            coord,
                        ))
                        &&& match result {
                            Ok(replaced) => replaced && final(self).record_of(coord) is Some
                                && final(self).record_of(coord)->0.residency == updated.residency
                                && spec_invalidated_around(
                                &*old(self),
                                Some(updated),
                                &*final(self),
                                coord,
                                InvalidationCause::Data,
                            ),
                            Err(error) => error is GenerationExhausted,
                        }
                    },
                    _ => result == Ok::<bool, RuntimeError>(false) && final(self).spec_records()
                        == old(self).spec_records(),
                },
                None => result == Ok::<bool, RuntimeError>(false) && final(self).spec_records()
                    == old(self).spec_records(),
            },
    {
        let ghost start = *old(self);
        let i = match self.find(coord) {
            Some(i) => i,
            None => return Ok(false),
        };
        let generation = match &self.records[i].residency {
            ResidencyState::CpuResident { content_generation, .. } => *content_generation,
            _ => return Ok(false),
        };
        let next = match generation.checked_add(1) {
            Some(next) => next,
            None => return Err(RuntimeError::GenerationExhausted { coord, kind: "content" }),
        };
        self.records[i].residency = ResidencyState::CpuResident { chunk, content_generation: next };
        proof {
            let r = self.records@[i as int];
            assert(self.records@ =~= start.records@.update(i as int, r));
            Self::lemma_wf_update(&start, self, i as int, r);
            lemma_record_update(start.records@, i as int, r);
        }
        let ghost replaced = *self;
        proof {
            let record = start.record_of(coord)->0;
            let updated = ChunkRecord { residency: self.records@[i as int].residency, ..record };
            lemma_record_at(start.records@, i as int);
            assert(self.records@[i as int] == updated);
            assert(replaced.record_of(coord) == Some(updated));
            assert(replaced.spec_render() == start.spec_render());
            assert forall|other: ChunkCoord| other != coord implies #[trigger] replaced.record_of(other)
                == start.record_of(other) by {}
            lemma_not_own_neighbor(coord);
        }
        let outcome = self.invalidate_around(coord, InvalidationCause::Data);
        proof {
            Self::lemma_mesh_frame(&replaced, self);
            lemma_residency_lookup(replaced.records@, self.records@);
        }
        match outcome {
            Ok(()) => Ok(true),
            Err(error) => Err(error),
        }
    }


    /// Whether a render record with resident content needs a replacement
    /// before its target is shown.
    pub fn needs_transition(&self, coord: ChunkCoord) -> (needs: bool)
        requires
            self.wf(),
        ensures
            exists|target: Option<MeshStamp>|
                #![trigger spec_target(self.spec_records(), self.spec_render(), coord, target)]
                spec_target(self.spec_records(), self.spec_render(), coord, target) && needs
                    == spec_needs_transition(self.spec_records(), self.spec_render(), coord, target),
    {
        let target = self.current_mesh_stamp(coord);
        proof {
            assert(spec_target(self.spec_records(), self.spec_render(), coord, target));
        }
        let i = match self.find(coord) {
            Some(i) => i,
            None => return false,
        };
        let resident = match self.records[i].residency {
            ResidencyState::CpuResident { .. } => true,
            _ => false,
        };
        if !holds_coord(&self.demand.render, coord) || !resident {
            return false;
        }
        match &self.records[i].committed {
            None => true,
            Some(committed) => match &target {
                None => true,
                Some(stamp) => !same_stamp(&committed.stamp.geometry_key(), &stamp.geometry_key()),
            },
        }
    }

    /// Per face in the `ALL` order, whether switching `coord` from its
    /// committed mesh to its target changes the seam shared with the
    /// neighbor across that face.
    pub fn seam_changes_by_face(&self, coord: ChunkCoord) -> (changes: [bool; 6])
        requires
            self.wf(),
        ensures
            exists|target: Option<MeshStamp>|
                #![trigger spec_target(self.spec_records(), self.spec_render(), coord, target)]
                spec_target(self.spec_records(), self.spec_render(), coord, target) && forall|k: int|
                    0 <= k < 6 ==> #[trigger] changes[k] == spec_seam_change(
                        self.record_of(coord),
                        target,
                        k,
                    ),
    {
        let target = self.current_mesh_stamp(coord);
        proof {
            assert(spec_target(self.spec_records(), self.spec_render(), coord, target));
        }
        let i = match self.find(coord) {
            Some(i) => i,
            None => return [false;6],
        };
        let committed = match &self.records[i].committed {
            Some(committed) => committed,
            None => return [false;6],
        };
        let stamp = match &target {
            Some(stamp) => stamp,
            None => return [true;6],
        };
        if committed.stamp.lod != stamp.lod {
            return [true;6];
        }
        let mut changes = [false;6];
        let mut k: usize = 0;
        while k < 6
            invariant
                k <= 6,
                committed.stamp.lod == stamp.lod,
                forall|m: int| 0 <= m < k ==> #[trigger] changes[m] == (committed.stamp.neighbors[m] != stamp.neighbors[m]),
            decreases 6 - k,
        {
            changes[k] = committed.stamp.neighbors[k] != stamp.neighbors[k];
            k = k + 1;
        }
        changes
    }

    /// Whether switching `coord` to its target changes the seam toward the
    /// neighbor across `face`.
    pub fn seam_changes(&self, coord: ChunkCoord, face: Face) -> (changes: bool)
        requires
            self.wf(),
        ensures
            exists|target: Option<MeshStamp>|
                #![trigger spec_target(self.spec_records(), self.spec_render(), coord, target)]
                spec_target(self.spec_records(), self.spec_render(), coord, target) && changes
                    == spec_seam_change(self.record_of(coord), target, face_index(face)),
    {
        let all = self.seam_changes_by_face(coord);
        all[face.index()]
    }

    /// Whether every member of a group has a ready replacement for its
    /// current target; an empty group, or one naming a coordinate twice, is
    /// never ready.
    pub fn group_is_ready(&self, group: &[ChunkCoord]) -> (ready: bool)
        requires
            self.wf(),
        ensures
            ready == (group@.len() > 0 && group@.no_duplicates() && forall|k: int|
                0 <= k < group@.len() ==> spec_ready_for_target(
                    self.spec_records(),
                    self.spec_render(),
                    #[trigger] group@[k],
                )),
    {
        if group.len() == 0 {
            return false;
        }
        let mut index: usize = 0;
        while index < group.len()
            invariant
                self.wf(),
                index <= group@.len(),
                forall|a: int, b: int| 0 <= a < b < index ==> group@[a] != group@[b],
                forall|k: int|
                    0 <= k < index ==> spec_ready_for_target(
                        self.records@,
                        coord_set(self.demand.render@),
                        #[trigger] group@[k],
                    ),
            decreases group@.len() - index,
        {
            let coord = group[index];
            let mut earlier: usize = 0;
            while earlier < index
                invariant
                    index < group@.len(),
                    earlier <= index,
                    coord == group@[index as int],
                    forall|a: int| 0 <= a < earlier ==> group@[a] != coord,
                decreases index - earlier,
            {
                if group[earlier] == coord {
                    proof {
                        assert(!group@.no_duplicates()) by {
                            assert(group@[earlier as int] == group@[index as int]);
                        }
                    }
                    return false;
                }
                earlier = earlier + 1;
            }
            let target = self.current_mesh_stamp(coord);
            let ready = match self.find(coord) {
                Some(i) => match &self.records[i].mesh {
                    MeshState::CpuReady { stamp, .. } => match &target {
                        Some(target) => same_stamp(stamp, target),
                        None => false,
                    },
                    _ => false,
                },
                None => false,
            };
            proof {
                if spec_record(self.records@, coord) is Some {
                    match spec_record(self.records@, coord)->0.mesh {
                        MeshState::CpuReady { stamp, .. } => {
                            if spec_target(self.records@, coord_set(self.demand.render@), coord, Some(stamp)) {
                                lemma_target_unique(
                                    self.records@,
                                    coord_set(self.demand.render@),
                                    coord,
                                    target,
                                    Some(stamp),
                                );
                            }
                        },
                        _ => {},
                    }
                }
            }
            if !ready {
                return false;
            }
            index = index + 1;
        }
        true
    }


    /// Finishes a group commit once the presentation side has answered its
    /// swap: a failed swap is handed back with the runtime untouched, a
    /// successful one commits the group as `commit_group` does. A caller asks
    /// `group_is_ready` before it swaps, so nothing is swapped for a group the
    /// runtime would refuse.
    pub fn commit_group_after_swap<E>(&mut self, group: &[ChunkCoord], swapped: Result<(), E>) -> (result: Result<usize, E>)
        requires
            old(self).wf(),
        ensures
            final(self).wf(),
            match swapped {
                Err(error) => result == Err::<usize, E>(error) && *final(self) == *old(self),
                Ok(()) => {
                    let ready = group@.len() > 0 && group@.no_duplicates() && forall|k: int|
                        0 <= k < group@.len() ==> spec_ready_for_target(
                            old(self).spec_records(),
                            old(self).spec_render(),
                            #[trigger] group@[k],
                        );
                    &&& mesh_frame(&*old(self), &*final(self))
                    &&& !ready ==> result == Ok::<usize, E>(0) && *final(self) == *old(self)
                    &&& ready ==> result == Ok::<usize, E>(group@.len() as usize)
                    &&& ready ==> final(self).spec_metrics() == (RuntimeMetrics {
                        transition_commits: vstd::wrapping::u64_specs::wrapping_add(
                            old(self).spec_metrics().transition_commits,
                            1,
                        ),
                        transition_chunks_committed: vstd::wrapping::u64_specs::wrapping_add(
                            old(self).spec_metrics().transition_chunks_committed,
                            group@.len() as u64,
                        ),
                        ..old(self).spec_metrics()
                    })
                    &&& ready ==> forall|coord: ChunkCoord|
                        #[trigger] final(self).record_of(coord) == if group@.contains(coord) {
                            Some(spec_committed(old(self).record_of(coord)->0))
                        } else {
                            old(self).record_of(coord)
                        }
                },
            },
    {
        match swapped {
            Err(error) => Err(error),
            Ok(()) => Ok(self.commit_group(group)),
        }
    }

    /// Moves every member's ready replacement into its committed slot, all or
    /// nothing: a group that is not ready commits nothing and answers zero,
    /// since a partial commit could leave a drawn pair mixing an old and a
    /// new seam. Answers how many members were committed.
    pub fn commit_group(&mut self, group: &[ChunkCoord]) -> (committed: usize)
        requires
            old(self).wf(),
        ensures
            final(self).wf(),
            mesh_frame(&*old(self), &*final(self)),
            final(self).spec_mesh_queue() == old(self).spec_mesh_queue(),
            ({
                let ready = group@.len() > 0 && group@.no_duplicates() && forall|k: int|
                    0 <= k < group@.len() ==> spec_ready_for_target(
                        old(self).spec_records(),
                        old(self).spec_render(),
                        #[trigger] group@[k],
                    );
                &&& !ready ==> committed == 0 && *final(self) == *old(self)
                &&& ready ==> committed == group@.len()
                &&& ready ==> final(self).spec_metrics() == (RuntimeMetrics {
                    transition_commits: vstd::wrapping::u64_specs::wrapping_add(
                        old(self).spec_metrics().transition_commits,
                        1,
                    ),
                    transition_chunks_committed: vstd::wrapping::u64_specs::wrapping_add(
                        old(self).spec_metrics().transition_chunks_committed,
                        group@.len() as u64,
                    ),
                    ..old(self).spec_metrics()
                })
                &&& ready ==> forall|coord: ChunkCoord|
                    #[trigger] final(self).record_of(coord) == if group@.contains(coord) {
                        Some(spec_committed(old(self).record_of(coord)->0))
                    } else {
                        old(self).record_of(coord)
                    }
            }),
    {
        if !self.group_is_ready(group) {
            proof {
                Self::lemma_mesh_frame(&*old(self), self);
            }
            return 0;
        }
        let ghost start = *old(self);
        let ghost render = coord_set(self.demand.render@);
        let mut count: usize = 0;
        let mut k: usize = 0;
        while k < group.len()
            invariant
                start == *old(self),
                self.wf(),
                mesh_frame(&start, &*self),
                self.mesh_queue@ == start.mesh_queue@,
                self.metrics == start.metrics,
                render == coord_set(self.demand.render@),
                same_stamp_inputs(start.records@, self.records@),
                k <= group@.len(),
                count == k,
                group@.no_duplicates(),
                forall|j: int| 0 <= j < group@.len() ==> spec_ready_for_target(start.records@, render, #[trigger] group@[j]),
                forall|coord: ChunkCoord|
                    #[trigger] spec_record(self.records@, coord) == if group@.take(k as int).contains(coord) {
                        Some(spec_committed(spec_record(start.records@, coord)->0))
                    } else {
                        spec_record(start.records@, coord)
                    },
            decreases group@.len() - k,
        {
            let coord = group[k];
            let ghost before = *self;
            proof {
                assert(!group@.take(k as int).contains(coord)) by {
                    if group@.take(k as int).contains(coord) {
                        let j = choose|j: int| 0 <= j < k && group@.take(k as int)[j] == coord;
                        assert(group@[j] == group@[k as int]);
                    }
                }
                assert(spec_record(self.records@, coord) == spec_record(start.records@, coord));
            }
            let i = match self.find(coord) {
                Some(i) => i,
                None => {
                    proof {
                        assert(spec_ready_for_target(start.records@, render, group@[k as int]));
                    }
                    return count;
                },
            };
            let mut previous = MeshState::Committed;
            std::mem::swap(&mut previous, &mut self.records[i].mesh);
            match previous {
                MeshState::CpuReady { stamp, mesh, bytes } => {
                    self.records[i].committed = Some(CommittedMesh { stamp, mesh, bytes });
                },
                _ => {},
            }
            proof {
                let r = self.records@[i as int];
                assert(spec_ready_for_target(start.records@, render, group@[k as int]));
                assert(r == spec_committed(before.records@[i as int]));
                assert(self.records@ =~= before.records@.update(i as int, r));
                lemma_record_update(before.records@, i as int, r);
                assert(same_residency(before.records@, self.records@));
                Self::lemma_mesh_frame(&before, self);
                Self::lemma_mesh_frame_trans(&start, &before, self);
                assert(same_stamp_inputs(start.records@, self.records@)) by {
                    assert forall|x: int| 0 <= x < start.records@.len() implies (#[trigger] start.records@[x]).mesh_generation
                        == self.records@[x].mesh_generation by {
                        assert(before.records@[x].mesh_generation == self.records@[x].mesh_generation);
                    }
                }
                assert(group@.take(k + 1) =~= group@.take(k as int).push(coord));
                assert forall|c: ChunkCoord| #[trigger] spec_record(self.records@, c) == if group@.take(k + 1).contains(c) {
                    Some(spec_committed(spec_record(start.records@, c)->0))
                } else {
                    spec_record(start.records@, c)
                } by {
                    if c != coord {
                        assert(group@.take(k + 1).contains(c) == group@.take(k as int).contains(c));
                    } else {
                        assert(group@.take(k + 1)[k as int] == c);
                        assert(group@.take(k + 1).contains(c));
                    }
                }
            }
            count = count + 1;
            k = k + 1;
        }
        proof {
            assert(group@.take(k as int) =~= group@);
        }
        self.metrics.transition_commits = self.metrics.transition_commits.wrapping_add(1);
        self.metrics.transition_chunks_committed = self.metrics.transition_chunks_committed.wrapping_add(
            count as u64,
        );
        count
    }


    /// Whether nothing is in flight and no record has work ahead.
    pub fn is_idle(&self) -> (idle: bool)
        ensures
            idle == (self.spec_in_flight() is None && forall|i: int|
                0 <= i < self.spec_records().len() ==> !spec_busy(#[trigger] self.spec_records()[i])),
    {
        if self.in_flight.is_some() {
            return false;
        }
        let mut i: usize = 0;
        while i < self.records.len()
            invariant
                i <= self.records@.len(),
                forall|k: int| 0 <= k < i ==> !spec_busy(#[trigger] self.records@[k]),
            decreases self.records@.len() - i,
        {
            let busy = match self.records[i].residency {
                ResidencyState::LoadQueued | ResidencyState::Loading => true,
                _ => false,
            } || match self.records[i].mesh {
                MeshState::Dirty(_) | MeshState::Meshing(_) | MeshState::WaitingForNeighbors => true,
                _ => false,
            };
            if busy {
                proof {
                    assert(spec_busy(self.spec_records()[i as int]));
                }
                return false;
            }
            i = i + 1;
        }
        true
    }

    /// Every tracked record as an observer sees it, in record order.
    pub fn tracked_states(&self) -> (states: Vec<TrackedState>)
        ensures
            states@.len() == self.spec_records().len(),
            forall|i: int|
                0 <= i < states@.len() ==> #[trigger] states@[i] == spec_tracked_state(self.spec_records()[i]),
    {
        let mut states: Vec<TrackedState> = Vec::new();
        let mut i: usize = 0;
        while i < self.records.len()
            invariant
                i <= self.records@.len(),
                states@.len() == i,
                forall|k: int| 0 <= k < i ==> #[trigger] states@[k] == spec_tracked_state(self.records@[k]),
            decreases self.records@.len() - i,
        {
            let record = &self.records[i];
            states.push(
                TrackedState {
                    coord: record.coord,
                    residency: residency_status_of(&record.residency),
                    mesh: mesh_status_of(&record.mesh),
                    lod: record.lod,
                    committed: record.committed.is_some(),
                    pending: match record.mesh {
                        MeshState::CpuReady { .. } => true,
                        _ => false,
                    },
                },
            );
            i = i + 1;
        }
        states
    }

    fn render_meshes(&self, committed: bool) -> (coords: Vec<ChunkCoord>)
        ensures
            coords@ == spec_render_meshes(self.records@, coord_set(self.demand.render@), committed),
    {
        let ghost render = coord_set(self.demand.render@);
        let mut coords: Vec<ChunkCoord> = Vec::new();
        let mut i: usize = 0;
        while i < self.records.len()
            invariant
                i <= self.records@.len(),
                render == coord_set(self.demand.render@),
                coords@ == spec_render_meshes(self.records@.take(i as int), render, committed),
            decreases self.records@.len() - i,
        {
            proof {
                assert(self.records@.take(i + 1).drop_last() =~= self.records@.take(i as int));
            }
            let record = &self.records[i];
            let holds = if committed {
                record.committed.is_some()
            } else {
                match record.mesh {
                    MeshState::CpuReady { .. } => true,
                    _ => false,
                }
            };
            if holds && holds_coord(&self.demand.render, record.coord) {
                coords.push(record.coord);
            }
            i = i + 1;
        }
        proof {
            assert(self.records@.take(i as int) =~= self.records@);
        }
        coords
    }

    /// The render records holding a pending replacement, in record order;
    /// presentation stages these without drawing them.
    pub fn render_ready_meshes(&self) -> (coords: Vec<ChunkCoord>)
        ensures
            coords@ == spec_render_meshes(self.spec_records(), self.spec_render(), false),
    {
        self.render_meshes(false)
    }

    /// The render records holding a committed mesh: the drawable set.
    pub fn render_committed_meshes(&self) -> (coords: Vec<ChunkCoord>)
        ensures
            coords@ == spec_render_meshes(self.spec_records(), self.spec_render(), true),
    {
        self.render_meshes(true)
    }

    /// Where a mesh job for `stamp` takes the voxels across each face, in
    /// the `ALL` order; nothing once the stamp is no longer its record's
    /// target.
    pub fn snapshot_plan(&self, stamp: &MeshStamp) -> (plan: Option<[SlabSource; 6]>)
        requires
            self.wf(),
        ensures
            match plan {
                Some(sources) => spec_target(self.spec_records(), self.spec_render(), stamp.coord, Some(*stamp))
                    && forall|k: int|
                    0 <= k < 6 ==> #[trigger] sources[k] == spec_slab_source(stamp.lod, stamp.neighbors[k]),
                None => !spec_target(self.spec_records(), self.spec_render(), stamp.coord, Some(*stamp)),
            },
    {
        let target = self.current_mesh_stamp(stamp.coord);
        let current = match &target {
            Some(target) => same_stamp(target, stamp),
            None => false,
        };
        proof {
            if spec_target(self.records@, coord_set(self.demand.render@), stamp.coord, Some(*stamp)) {
                lemma_target_unique(
                    self.records@,
                    coord_set(self.demand.render@),
                    stamp.coord,
                    target,
                    Some(*stamp),
                );
            }
        }
        if !current {
            return None;
        }
        let mut sources = [SlabSource::KnownAir;6];
        let mut k: usize = 0;
        while k < 6
            invariant
                k <= 6,
                forall|m: int| 0 <= m < k ==> #[trigger] sources[m] == spec_slab_source(stamp.lod, stamp.neighbors[m]),
            decreases 6 - k,
        {
            sources[k] = match stamp.neighbors[k] {
                NeighborStamp::KnownAbsent { .. } => SlabSource::KnownAir,
                NeighborStamp::Resident { coord, seam, .. } => match stamp.lod {
                    LodLevel::Lod0 => if seam == SeamContract::CoarseNeighbor {
                        SlabSource::CoarseOccupancy(coord)
                    } else {
                        SlabSource::FromNeighbor(coord)
                    },
                    LodLevel::Lod1 => if seam == SeamContract::FineNeighbor {
                        SlabSource::FineCoverage(coord)
                    } else {
                        SlabSource::Downsampled(coord)
                    },
                },
            };
            k = k + 1;
        }
        Some(sources)
    }


    /// One aggregate observation of the runtime: the queue and slot sizes,
    /// and every record counted in by residency, mesh state and level.
    pub fn summary(&self) -> (summary: ResidencySummary)
        ensures
            summary == spec_tally_records(
                ResidencySummary {
                    tracked_records: self.spec_records().len() as usize,
                    load_queued: 0,
                    loading: 0,
                    cpu_resident: 0,
                    known_absent: 0,
                    evict_pending: 0,
                    mesh_waiting: 0,
                    mesh_dirty: 0,
                    mesh_meshing: 0,
                    mesh_ready: 0,
                    queued_loads: self.spec_load_queue().len() as usize,
                    queued_meshes: self.spec_mesh_queue().len() as usize,
                    jobs_in_flight: if self.spec_in_flight() is Some {
                        1
                    } else {
                        0
                    },
                    reserved_load_slots: self.spec_reserved().len() as usize,
                    resident_payload_bytes: 0,
                    cpu_mesh_bytes: 0,
                    lod0_desired: 0,
                    lod1_desired: 0,
                    render_known_absent: 0,
                    lod0_ready: 0,
                    lod1_ready: 0,
                    lod0_committed: 0,
                    lod1_committed: 0,
                    transition_pending: 0,
                },
                self.spec_records(),
                self.spec_render(),
            ),
    {
        let ghost render = coord_set(self.demand.render@);
        let base = ResidencySummary {
            tracked_records: self.records.len(),
            load_queued: 0,
            loading: 0,
            cpu_resident: 0,
            known_absent: 0,
            evict_pending: 0,
            mesh_waiting: 0,
            mesh_dirty: 0,
            mesh_meshing: 0,
            mesh_ready: 0,
            queued_loads: self.load_queue.len(),
            queued_meshes: self.mesh_queue.len(),
            jobs_in_flight: if self.in_flight.is_some() {
                1
            } else {
                0
            },
            reserved_load_slots: self.reserved_load_slots.len(),
            resident_payload_bytes: 0,
            cpu_mesh_bytes: 0,
            lod0_desired: 0,
            lod1_desired: 0,
            render_known_absent: 0,
            lod0_ready: 0,
            lod1_ready: 0,
            lod0_committed: 0,
            lod1_committed: 0,
            transition_pending: 0,
        };
        let mut summary = base;
        let mut i: usize = 0;
        while i < self.records.len()
            invariant
                i <= self.records@.len(),
                render == coord_set(self.demand.render@),
                summary == spec_tally_records(base, self.records@.take(i as int), render),
            decreases self.records@.len() - i,
        {
            proof {
                assert(self.records@.take(i + 1).drop_last() =~= self.records@.take(i as int));
            }
            let in_render = holds_coord(&self.demand.render, self.records[i].coord);
            summary = tally_record(summary, &self.records[i], in_render);
            i = i + 1;
        }
        proof {
            assert(self.records@.take(i as int) =~= self.records@);
        }
        summary
    }


    /// The hard cap is never exceeded: in every well-formed runtime the
    /// chunks owned, retiring ones included, plus the load slots reserved
    /// stay within `hard_resident_cap`; every loading record holds a
    /// reservation; and the tokens of tracked records are distinct and older
    /// than the next one, so a re-entered coordinate never reuses one.
    pub proof fn lemma_residency_bounded(runtime: &Self)
        requires
            runtime.wf_core(),
        ensures
            runtime.committed_residency() <= runtime.spec_config().hard_resident_cap,
            forall|i: int|
                0 <= i < runtime.spec_records().len() && (#[trigger] runtime.spec_records()[i]).residency is Loading
                    ==> runtime.spec_reserved().contains(runtime.spec_records()[i].token),
            forall|i: int, j: int|
                0 <= i < j < runtime.spec_records().len() ==> (#[trigger] runtime.spec_records()[i]).token
                    != (#[trigger] runtime.spec_records()[j]).token,
            forall|i: int|
                0 <= i < runtime.spec_records().len() ==> (#[trigger] runtime.spec_records()[i]).token.0
                    < runtime.spec_next_token(),
    {
    }

    /// Every coordinate is tracked at most once, and the record found for a
    /// coordinate is the one at its position.
    pub proof fn lemma_records_unique(runtime: &Self, i: int)
        requires
            runtime.wf_core(),
            0 <= i < runtime.spec_records().len(),
        ensures
            runtime.record_of(runtime.spec_records()[i].coord) == Some(runtime.spec_records()[i]),
            forall|j: int|
                0 <= j < runtime.spec_records().len() && j != i ==> (#[trigger] runtime.spec_records()[j]).coord
                    != runtime.spec_records()[i].coord,
    {
        lemma_record_at(runtime.records@, i);
        assert forall|j: int|
            0 <= j < runtime.spec_records().len() && j != i implies (#[trigger] runtime.spec_records()[j]).coord
            != runtime.spec_records()[i].coord by {
            if j < i {
                assert(coord_lt(runtime.records@[j].coord, runtime.records@[i].coord));
            } else {
                assert(coord_lt(runtime.records@[i].coord, runtime.records@[j].coord));
            }
        }
    }


    /// The render records that need a transition, in ascending order.
    fn dirty_coords(&self) -> (dirty: Vec<ChunkCoord>)
        requires
            self.wf(),
        ensures
            coords_sorted(dirty@),
            forall|c: ChunkCoord| #[trigger] dirty@.contains(c) <==> spec_dirty(self.spec_records(), self.spec_render(), c),
    {
        let ghost render = self.spec_render();
        let mut found: Vec<ChunkCoord> = Vec::new();
        let mut i: usize = 0;
        while i < self.demand.render.len()
            invariant
                self.wf(),
                render == self.spec_render(),
                i <= self.demand.render@.len(),
                found@.no_duplicates(),
                forall|c: ChunkCoord| #[trigger] found@.contains(c) <==> (self.demand.render@.take(i as int).contains(c)
                    && spec_dirty(self.spec_records(), render, c)),
            decreases self.demand.render@.len() - i,
        {
            let coord = self.demand.render[i];
            let needs = self.needs_transition(coord);
            proof {
                let t = choose|t: Option<MeshStamp>|
                    #[trigger] spec_target(self.spec_records(), self.spec_render(), coord, t) && needs
                        == spec_needs_transition(self.spec_records(), self.spec_render(), coord, t);
                if spec_dirty(self.spec_records(), render, coord) {
                    let u = choose|u: Option<MeshStamp>|
                        #[trigger] spec_target(self.spec_records(), render, coord, u) && spec_needs_transition(
                            self.spec_records(),
                            render,
                            coord,
                            u,
                        );
                    lemma_target_unique(self.spec_records(), render, coord, t, u);
                }
                assert(self.demand.render@.take(i + 1) =~= self.demand.render@.take(i as int).push(coord));
                assert(!self.demand.render@.take(i as int).contains(coord)) by {
                    if self.demand.render@.take(i as int).contains(coord) {
                        let j = choose|j: int| 0 <= j < i && self.demand.render@.take(i as int)[j] == coord;
                        assert(self.demand.render@[j] == self.demand.render@[i as int]);
                    }
                }
            }
            let ghost before = found@;
            proof {
                assert(needs == spec_dirty(self.spec_records(), render, coord));
                assert(!before.contains(coord));
            }
            if needs {
                found.push(coord);
            }
            proof {
                assert(found@ == before || found@ == before.push(coord));
                assert forall|c: ChunkCoord| #[trigger] found@.contains(c) <==> (self.demand.render@.take(i + 1).contains(c)
                    && spec_dirty(self.spec_records(), render, c)) by {
                    assert(before.contains(c) <==> (self.demand.render@.take(i as int).contains(c)
                        && spec_dirty(self.spec_records(), render, c)));
                    if c == coord {
                        if needs {
                            assert(found@[before.len() as int] == c);
                        }
                        assert(self.demand.render@.take(i + 1)[i as int] == c);
                    } else {
                        if self.demand.render@.take(i + 1).contains(c) {
                            let j = choose|j: int| 0 <= j < i + 1 && #[trigger] self.demand.render@.take(i + 1)[j] == c;
                            assert(self.demand.render@.take(i as int)[j] == c);
                        }
                        if self.demand.render@.take(i as int).contains(c) {
                            let j = choose|j: int| 0 <= j < i && #[trigger] self.demand.render@.take(i as int)[j] == c;
                            assert(self.demand.render@.take(i + 1)[j] == c);
                        }
                        if found@.contains(c) {
                            let j = choose|j: int| 0 <= j < found@.len() && #[trigger] found@[j] == c;
                            if needs {
                                assert(j < before.len());
                            }
                            assert(before[j] == c);
                        }
                        if before.contains(c) {
                            let j = choose|j: int| 0 <= j < before.len() && #[trigger] before[j] == c;
                            assert(found@[j] == c);
                        }
                    }
                }
            }
            i = i + 1;
        }
        proof {
            assert(self.demand.render@.take(i as int) =~= self.demand.render@);
            assert forall|c: ChunkCoord| spec_dirty(self.spec_records(), render, c) implies #[trigger] self.demand.render@.contains(c) by {
                let t = choose|t: Option<MeshStamp>|
                    #[trigger] spec_target(self.spec_records(), render, c, t) && spec_needs_transition(
                        self.spec_records(),
                        render,
                        c,
                        t,
                    );
                assert(render.contains(c));
            }
        }
        sort_coords(&found)
    }

    /// Whether `a` and its neighbor `b` across position `k` must switch
    /// together.
    fn joined(&self, a: ChunkCoord, k: usize, b: ChunkCoord) -> (joined: bool)
        requires
            self.wf(),
            k < 6,
        ensures
            joined == (spec_face_changes(self.spec_records(), self.spec_render(), a, k as int)
                || spec_face_changes(self.spec_records(), self.spec_render(), b, opposite_index(k as int))),
    {
        let mine = self.seam_changes_by_face(a);
        let theirs = self.seam_changes_by_face(b);
        let back: usize = if k % 2 == 0 {
            k + 1
        } else {
            k - 1
        };
        proof {
            let records = self.spec_records();
            let render = self.spec_render();
            let ta = choose|t: Option<MeshStamp>|
                #[trigger] spec_target(records, render, a, t) && forall|m: int|
                    0 <= m < 6 ==> #[trigger] mine[m] == spec_seam_change(self.record_of(a), t, m);
            let tb = choose|t: Option<MeshStamp>|
                #[trigger] spec_target(records, render, b, t) && forall|m: int|
                    0 <= m < 6 ==> #[trigger] theirs[m] == spec_seam_change(self.record_of(b), t, m);
            if spec_face_changes(records, render, a, k as int) {
                let u = choose|u: Option<MeshStamp>|
                    #[trigger] spec_target(records, render, a, u) && spec_seam_change(
                        spec_record(records, a),
                        u,
                        k as int,
                    );
                lemma_target_unique(records, render, a, ta, u);
            }
            if mine[k as int] {
                assert(spec_target(records, render, a, ta));
            }
            if spec_face_changes(records, render, b, back as int) {
                let u = choose|u: Option<MeshStamp>|
                    #[trigger] spec_target(records, render, b, u) && spec_seam_change(
                        spec_record(records, b),
                        u,
                        back as int,
                    );
                lemma_target_unique(records, render, b, tb, u);
            }
            if theirs[back as int] {
                assert(spec_target(records, render, b, tb));
            }
        }
        mine[k] || theirs[back]
    }



    /// Takes in the neighbor of `coord` across position `k` when it needs a
    /// transition, is not seen yet and is joined to `coord`.
    fn expand_toward(
        &self,
        dirty: &Vec<ChunkCoord>,
        coord: ChunkCoord,
        k: usize,
        seen: &mut Vec<ChunkCoord>,
        group: &mut Vec<ChunkCoord>,
        stack: &mut Vec<ChunkCoord>,
    )
        requires
            self.wf(),
            k < 6,
            forall|c: ChunkCoord| #[trigger] dirty@.contains(c) <==> spec_dirty(self.spec_records(), self.spec_render(), c),
            spec_dirty(self.spec_records(), self.spec_render(), coord),
        ensures
            ({
                let (records, render) = (self.spec_records(), self.spec_render());
                let next = spec_step(coord, spec_face_at(k as int));
                &&& (final(seen)@ == old(seen)@ && final(group)@ == old(group)@ && final(stack)@ == old(stack)@)
                    || (next is Some && final(seen)@ == old(seen)@.push(next->0) && final(group)@ == old(group)@.push(
                    next->0,
                ) && final(stack)@ == old(stack)@.push(next->0) && !old(seen)@.contains(next->0) && spec_dirty(
                    records,
                    render,
                    next->0,
                ) && spec_edge(records, render, coord, next->0))
                &&& next is Some && spec_dirty(records, render, next->0) && (spec_face_changes(
                    records,
                    render,
                    coord,
                    k as int,
                ) || spec_face_changes(records, render, next->0, opposite_index(k as int)))
                    ==> final(seen)@.contains(next->0)
            }),
    {
        let face = Face::from_index(k);
        proof {
            assert(face == spec_face_at(k as int));
        }
        let next = match coord.neighbor(face) {
            Some(next) => next,
            None => return,
        };
        if !holds_coord(dirty, next) {
            return;
        }
        if holds_coord(seen, next) {
            return;
        }
        if !self.joined(coord, k, next) {
            return;
        }
        proof {
            assert(spec_edge(self.spec_records(), self.spec_render(), coord, next)) by {
                assert(spec_step(coord, spec_face_at(k as int)) == Some(next));
            }
        }
        seen.push(next);
        group.push(next);
        stack.push(next);
        proof {
            assert(seen@.last() == next);
        }
    }

    /// Grows the group of `start` over joins, taking in every record it
    /// reaches that is not seen yet.
    fn grow_group(&self, dirty: &Vec<ChunkCoord>, start: ChunkCoord, seen: &mut Vec<ChunkCoord>) -> (group: Vec<ChunkCoord>)
        requires
            self.wf(),
            forall|c: ChunkCoord| #[trigger] dirty@.contains(c) <==> spec_dirty(self.spec_records(), self.spec_render(), c),
            spec_dirty(self.spec_records(), self.spec_render(), start),
            !old(seen)@.contains(start),
        ensures
            grow_inv(
                self.spec_records(),
                self.spec_render(),
                old(seen)@,
                start,
                final(seen)@,
                group@,
                Seq::empty(),
                None,
                0,
            ),
    {
        let ghost records = self.spec_records();
        let ghost render = self.spec_render();
        let ghost seen_before = seen@;
        let mut group: Vec<ChunkCoord> = Vec::new();
        group.push(start);
        seen.push(start);
        let mut stack: Vec<ChunkCoord> = Vec::new();
        stack.push(start);
        proof {
            lemma_grow_init(records, render, seen_before, start, seen@, group@, stack@);
        }
        while stack.len() > 0
            invariant
                self.wf(),
                records == self.spec_records(),
                render == self.spec_render(),
                forall|c: ChunkCoord| #[trigger] dirty@.contains(c) <==> spec_dirty(records, render, c),
                grow_inv(records, render, seen_before, start, seen@, group@, stack@, None, 0),
            decreases dirty@.len() - group@.len(), stack@.len(),
        {
            proof {
                lemma_grow_bounded(records, render, seen_before, start, seen@, group@, stack@, None, 0, dirty@);
            }
            let ghost stack_before = stack@;
            let ghost group_before = group@;
            let coord = stack.pop().unwrap();
            proof {
                assert(stack_before == stack@.push(coord));
                lemma_grow_pop(records, render, seen_before, start, seen@, group@, stack@, coord);
            }
            let mut k: usize = 0;
            while k < 6
                invariant
                    self.wf(),
                    records == self.spec_records(),
                    render == self.spec_render(),
                    forall|c: ChunkCoord| #[trigger] dirty@.contains(c) <==> spec_dirty(records, render, c),
                    k <= 6,
                    grow_inv(records, render, seen_before, start, seen@, group@, stack@, Some(coord), k as int),
                    spec_dirty(records, render, coord),
                    group@.len() >= group_before.len(),
                    group@.len() == group_before.len() ==> stack@.len() + 1 == stack_before.len(),
                decreases 6 - k,
            {
                let ghost (seen0, group0, stack0) = (seen@, group@, stack@);
                self.expand_toward(dirty, coord, k, seen, &mut group, &mut stack);
                proof {
                    lemma_grow_expand(
                        records,
                        render,
                        seen_before,
                        start,
                        coord,
                        k as int,
                        seen0,
                        group0,
                        stack0,
                        seen@,
                        group@,
                        stack@,
                    );
                }
                k = k + 1;
            }
            proof {
                lemma_grow_finish(records, render, seen_before, start, seen@, group@, stack@, coord);
                lemma_grow_bounded(records, render, seen_before, start, seen@, group@, stack@, None, 0, dirty@);
            }
        }
        proof {
            assert(stack@.len() == 0);
            assert(stack@ =~= Seq::<ChunkCoord>::empty());
        }
        group
    }

    /// Atomic transition groups: the render records that need a transition,
    /// split into the sets that must switch to their targets in the same
    /// frame so that no drawn pair ever shows an incompatible seam.
    ///
    /// Two adjacent records that both need a transition are joined only when
    /// a drawn side's seam toward the other changes ([`spec_edge`]). The
    /// groups are exactly the connected parts of that graph: every record
    /// that needs a transition is in one group, a group is connected and
    /// closed under joins, each is in ascending order and the groups are
    /// ordered by their first member.
    pub fn transition_groups(&self) -> (groups: Vec<Vec<ChunkCoord>>)
        requires
            self.wf(),
        ensures
            ({
                let (records, render) = (self.spec_records(), self.spec_render());
                &&& forall|g: int|
                    0 <= g < groups@.len() ==> (#[trigger] groups@[g])@.len() > 0 && coords_sorted(
                        groups@[g]@,
                    )
                &&& forall|g: int, c: ChunkCoord|
                    0 <= g < groups@.len() && #[trigger] groups@[g]@.contains(c) ==> spec_dirty(
                        records,
                        render,
                        c,
                    )
                &&& forall|c: ChunkCoord|
                    #[trigger] spec_dirty(records, render, c) ==> exists|g: int|
                        0 <= g < groups@.len() && #[trigger] groups@[g]@.contains(c)
                &&& forall|g: int, h: int, c: ChunkCoord|
                    0 <= g < groups@.len() && 0 <= h < groups@.len() && g != h && #[trigger] groups@[g]@.contains(c)
                        ==> !#[trigger] groups@[h]@.contains(c)
                &&& forall|g: int, c: ChunkCoord, d: ChunkCoord|
                    0 <= g < groups@.len() && #[trigger] groups@[g]@.contains(c) && #[trigger] spec_edge(
                        records,
                        render,
                        c,
                        d,
                    ) ==> groups@[g]@.contains(d)
                &&& forall|g: int|
                    0 <= g < groups@.len() ==> spec_connected(records, render, #[trigger] groups@[g]@)
                &&& forall|g: int, h: int|
                    0 <= g < h < groups@.len() ==> coord_lt(
                        (#[trigger] groups@[g])@[0],
                        (#[trigger] groups@[h])@[0],
                    )
            }),
    {
        let ghost records = self.spec_records();
        let ghost render = self.spec_render();
        let dirty = self.dirty_coords();
        let mut seen: Vec<ChunkCoord> = Vec::new();
        let mut groups: Vec<Vec<ChunkCoord>> = Vec::new();
        let ghost mut orders: Seq<Seq<ChunkCoord>> = Seq::empty();
        let ghost mut firsts: Seq<int> = Seq::empty();
        let mut s: usize = 0;
        while s < dirty.len()
            invariant
                self.wf(),
                records == self.spec_records(),
                render == self.spec_render(),
                coords_sorted(dirty@),
                forall|c: ChunkCoord| #[trigger] dirty@.contains(c) <==> spec_dirty(records, render, c),
                s <= dirty@.len(),
                groups@.len() == orders.len(),
                groups@.len() == firsts.len(),
                forall|g: int|
                    0 <= g < groups@.len() ==> (#[trigger] groups@[g])@.len() > 0 && coords_sorted(groups@[g]@),
                forall|g: int|
                    0 <= g < groups@.len() ==> spec_spanned(records, render, #[trigger] orders[g]),
                forall|g: int, c: ChunkCoord|
                    0 <= g < groups@.len() ==> (#[trigger] orders[g].contains(c) <==> groups@[g]@.contains(c)),
                forall|g: int, c: ChunkCoord|
                    0 <= g < groups@.len() && #[trigger] groups@[g]@.contains(c) ==> spec_dirty(records, render, c),
                forall|g: int, c: ChunkCoord, d: ChunkCoord|
                    0 <= g < groups@.len() && #[trigger] groups@[g]@.contains(c) && #[trigger] spec_edge(
                        records,
                        render,
                        c,
                        d,
                    ) ==> groups@[g]@.contains(d),
                forall|c: ChunkCoord|
                    #[trigger] seen@.contains(c) <==> exists|g: int|
                        0 <= g < groups@.len() && #[trigger] groups@[g]@.contains(c),
                forall|g: int, h: int, c: ChunkCoord|
                    0 <= g < groups@.len() && 0 <= h < groups@.len() && g != h && #[trigger] groups@[g]@.contains(c)
                        ==> !#[trigger] groups@[h]@.contains(c),
                forall|t: int| 0 <= t < s ==> seen@.contains(#[trigger] dirty@[t]),
                forall|g: int|
                    0 <= g < groups@.len() ==> 0 <= #[trigger] firsts[g] < s && groups@[g]@[0] == dirty@[firsts[g]],
                forall|g: int, h: int| 0 <= g < h < groups@.len() ==> #[trigger] firsts[g] < #[trigger] firsts[h],
            decreases dirty@.len() - s,
        {
            let start = dirty[s];
            if holds_coord(&seen, start) {
                s = s + 1;
                continue;
            }
            let ghost seen_before = seen@;
            proof {
                assert(dirty@.contains(start)) by {
                    assert(dirty@[s as int] == start);
                }
            }
            proof {
                assert forall|c: ChunkCoord, d: ChunkCoord|
                    #[trigger] seen_before.contains(c) && #[trigger] spec_edge(records, render, c, d)
                        implies seen_before.contains(d) by {
                    let g = choose|g: int| 0 <= g < groups@.len() && #[trigger] groups@[g]@.contains(c);
                    assert(groups@[g]@.contains(d));
                }
            }
            let group = self.grow_group(&dirty, start, &mut seen);
            proof {
                lemma_group_closed(records, render, seen_before, start, seen@, group@);
                reveal(grow_shape);
            }
            let sorted = sort_coords(&group);
            proof {
                lemma_group_first(dirty@, s as int, seen_before, group@, sorted@);
            }
            let ghost old_groups = groups@;
            groups.push(sorted);
            proof {
                let n = old_groups.len() as int;
                assert(groups@[n]@ == sorted@);
                assert forall|g: int| 0 <= g < n implies #[trigger] groups@[g] == old_groups[g] by {}
                orders = orders.push(group@);
                firsts = firsts.push(s as int);
                assert forall|c: ChunkCoord| #[trigger] seen_before.contains(c) implies seen@.contains(c) by {
                    let j = choose|j: int| 0 <= j < seen_before.len() && seen_before[j] == c;
                    assert(seen@[j] == c);
                }
                assert forall|c: ChunkCoord| #[trigger] group@.contains(c) implies seen@.contains(c) by {
                    let j = choose|j: int| 0 <= j < group@.len() && group@[j] == c;
                    assert(seen@[seen_before.len() + j] == c);
                }
                assert forall|c: ChunkCoord| #[trigger] seen@.contains(c) <==> exists|g: int|
                    0 <= g < groups@.len() && #[trigger] groups@[g]@.contains(c) by {
                    if seen@.contains(c) {
                        let j = choose|j: int| 0 <= j < seen@.len() && seen@[j] == c;
                        if j < seen_before.len() {
                            assert(seen_before[j] == c);
                            assert(seen_before.contains(c));
                            let g = choose|g: int| 0 <= g < old_groups.len() && #[trigger] old_groups[g]@.contains(c);
                            assert(groups@[g]@.contains(c));
                        } else {
                            assert(group@[j - seen_before.len()] == c);
                            assert(group@.contains(c));
                            assert(groups@[n]@.contains(c));
                        }
                    }
                    if exists|g: int| 0 <= g < groups@.len() && #[trigger] groups@[g]@.contains(c) {
                        let g = choose|g: int| 0 <= g < groups@.len() && #[trigger] groups@[g]@.contains(c);
                        if g < n {
                            assert(old_groups[g]@.contains(c));
                            assert(seen_before.contains(c));
                        } else {
                            assert(group@.contains(c));
                        }
                    }
                }
                assert forall|g: int, h: int, c: ChunkCoord|
                    0 <= g < groups@.len() && 0 <= h < groups@.len() && g != h && #[trigger] groups@[g]@.contains(c)
                        implies !#[trigger] groups@[h]@.contains(c) by {
                    if g == n {
                        assert(group@.contains(c));
                        if groups@[h]@.contains(c) {
                            assert(old_groups[h]@.contains(c));
                            assert(seen_before.contains(c));
                        }
                    } else if h == n {
                        assert(old_groups[g]@.contains(c));
                        assert(seen_before.contains(c));
                    } else {
                        assert(old_groups[g]@.contains(c));
                    }
                }
                assert forall|t: int| 0 <= t < s + 1 implies seen@.contains(#[trigger] dirty@[t]) by {
                    if t < s {
                        assert(seen_before.contains(dirty@[t]));
                    } else {
                        assert(group@.contains(dirty@[t])) by {
                            assert(group@[0] == start);
                        }
                    }
                }
                assert forall|g: int, c: ChunkCoord, d: ChunkCoord|
                    0 <= g < groups@.len() && #[trigger] groups@[g]@.contains(c) && #[trigger] spec_edge(
                        records,
                        render,
                        c,
                        d,
                    ) implies groups@[g]@.contains(d) by {
                    if g == n {
                        assert(group@.contains(c));
                        assert(group@.contains(d));
                    } else {
                        assert(old_groups[g]@.contains(c));
                    }
                }
                assert forall|g: int, c: ChunkCoord|
                    0 <= g < groups@.len() implies (#[trigger] orders[g].contains(c) <==> groups@[g]@.contains(c)) by {
                    if g < n {
                        assert(old_groups[g] == groups@[g]);
                    }
                }
            }
            s = s + 1;
        }
        proof {
            assert forall|c: ChunkCoord| #[trigger] spec_dirty(records, render, c) implies exists|g: int|
                0 <= g < groups@.len() && #[trigger] groups@[g]@.contains(c) by {
                assert(dirty@.contains(c));
                let t = choose|t: int| 0 <= t < dirty@.len() && dirty@[t] == c;
                assert(seen@.contains(dirty@[t]));
            }
            assert forall|g: int| 0 <= g < groups@.len() implies spec_connected(
                records,
                render,
                #[trigger] groups@[g]@,
            ) by {
                assert(spec_spanned(records, render, orders[g]));
                assert(forall|c: ChunkCoord| #[trigger] orders[g].contains(c) <==> groups@[g]@.contains(c));
            }
            assert forall|g: int, h: int| 0 <= g < h < groups@.len() implies coord_lt(
                (#[trigger] groups@[g])@[0],
                (#[trigger] groups@[h])@[0],
            ) by {
                assert(firsts[g] < firsts[h]);
                assert(coord_lt(dirty@[firsts[g]], dirty@[firsts[h]]));
            }
        }
        groups
    }

    /// The index of a coordinate's record.
    fn find(&self, coord: ChunkCoord) -> (index: Option<usize>)
        requires
            records_sorted(self.records@),
        ensures
            match index {
                Some(i) => i < self.records@.len() && self.records@[i as int].coord == coord
                    && spec_record(self.records@, coord) == Some(self.records@[i as int]),
                None => !has_coord(self.records@, coord) && spec_record(self.records@, coord)
                    is None,
            },
    {
        let mut i: usize = 0;
        while i < self.records.len()
            invariant
                records_sorted(self.records@),
                i <= self.records@.len(),
                forall|k: int| 0 <= k < i ==> self.records@[k].coord != coord,
            decreases self.records@.len() - i,
        {
            if self.records[i].coord == coord {
                proof {
                    lemma_record_at(self.records@, i as int);
                }
                return Some(i);
            }
            i = i + 1;
        }
        None
    }

    pub fn center(&self) -> (center: ChunkCoord)
        ensures
            center == self.spec_center(),
    {
        self.center
    }

    pub fn demand(&self) -> (demand: &DemandSets)
        ensures
            coord_set(demand.render@) == self.spec_render(),
            coord_set(demand.dependency@) == self.spec_dependency(),
            coord_set(demand.retention@) == self.spec_retention(),
    {
        &self.demand
    }

    pub fn metrics(&self) -> (metrics: &RuntimeMetrics)
        ensures
            *metrics == self.spec_metrics(),
    {
        &self.metrics
    }

    pub fn residency_status(&self, coord: ChunkCoord) -> (status: Option<ResidencyStatus>)
        requires
            self.wf(),
        ensures
            status == match self.record_of(coord) {
                Some(record) => Some(spec_residency_status(record.residency)),
                None => None,
            },
    {
        match self.find(coord) {
            Some(i) => Some(residency_status_of(&self.records[i].residency)),
            None => None,
        }
    }

    pub fn mesh_status(&self, coord: ChunkCoord) -> (status: Option<MeshStatus>)
        requires
            self.wf(),
        ensures
            status == match self.record_of(coord) {
                Some(record) => Some(spec_mesh_status(record.mesh)),
                None => None,
            },
    {
        match self.find(coord) {
            Some(i) => Some(mesh_status_of(&self.records[i].mesh)),
            None => None,
        }
    }

    /// The desired level of a tracked coordinate.
    pub fn desired_lod(&self, coord: ChunkCoord) -> (lod: Option<LodLevel>)
        requires
            self.wf(),
        ensures
            lod == match self.record_of(coord) {
                Some(record) => Some(record.lod),
                None => None,
            },
    {
        match self.find(coord) {
            Some(i) => Some(self.records[i].lod),
            None => None,
        }
    }

    /// The token of the current incarnation of a tracked coordinate.
    pub fn request_token(&self, coord: ChunkCoord) -> (token: Option<RequestToken>)
        requires
            self.wf(),
        ensures
            token == match self.record_of(coord) {
                Some(record) => Some(record.token),
                None => None,
            },
    {
        match self.find(coord) {
            Some(i) => Some(self.records[i].token),
            None => None,
        }
    }

    /// Cause of the last invalidation of a coordinate, if any.
    pub fn last_invalidation(&self, coord: ChunkCoord) -> (cause: Option<InvalidationCause>)
        requires
            self.wf(),
        ensures
            cause == match self.record_of(coord) {
                Some(record) => record.last_invalidation,
                None => None,
            },
    {
        match self.find(coord) {
            Some(i) => self.records[i].last_invalidation,
            None => None,
        }
    }

    /// The resident chunk of a coordinate, for building a mesh snapshot.
    pub fn resident_chunk(&self, coord: ChunkCoord) -> (chunk: Option<&Chunk>)
        requires
            self.wf(),
        ensures
            match self.record_of(coord) {
                Some(record) => match record.residency {
                    ResidencyState::CpuResident { chunk: resident, .. } => chunk == Some(&resident),
                    _ => chunk is None,
                },
                None => chunk is None,
            },
    {
        match self.find(coord) {
            Some(i) => match &self.records[i].residency {
                ResidencyState::CpuResident { chunk, .. } => Some(chunk),
                _ => None,
            },
            None => None,
        }
    }

    /// The pending replacement mesh for a coordinate.
    pub fn ready_mesh(&self, coord: ChunkCoord) -> (ready: Option<(&MeshStamp, &M)>)
        requires
            self.wf(),
        ensures
            match self.record_of(coord) {
                Some(record) => match record.mesh {
                    MeshState::CpuReady { stamp, mesh, .. } => ready == Some((&stamp, &mesh)),
                    _ => ready is None,
                },
                None => ready is None,
            },
    {
        match self.find(coord) {
            Some(i) => match &self.records[i].mesh {
                MeshState::CpuReady { stamp, mesh, .. } => Some((stamp, mesh)),
                _ => None,
            },
            None => None,
        }
    }

    /// The mesh presentation may draw for a coordinate right now.
    pub fn committed_mesh(&self, coord: ChunkCoord) -> (committed: Option<(&MeshStamp, &M)>)
        requires
            self.wf(),
        ensures
            match self.record_of(coord) {
                Some(record) => match record.committed {
                    Some(mesh) => committed == Some((&mesh.stamp, &mesh.mesh)),
                    None => committed is None,
                },
                None => committed is None,
            },
    {
        match self.find(coord) {
            Some(i) => match &self.records[i].committed {
                Some(committed) => Some((&committed.stamp, &committed.mesh)),
                None => None,
            },
            None => None,
        }
    }

    /// How many records have a property.
    fn count(&self, tally: Tally) -> (count: usize)
        ensures
            count == count_records(self.records@, tally),
    {
        let mut count: usize = 0;
        let mut i: usize = 0;
        while i < self.records.len()
            invariant
                i <= self.records@.len(),
                count == count_records(self.records@.take(i as int), tally),
                count <= i,
            decreases self.records@.len() - i,
        {
            proof {
                lemma_count_step(self.records@, tally, i as int);
            }
            let hit = match tally {
                Tally::Payload => holds_payload_exec(&self.records[i].residency),
                Tally::EvictPending => match self.records[i].residency {
                    ResidencyState::EvictPending(_) => true,
                    _ => false,
                },
                Tally::Ready => match self.records[i].mesh {
                    MeshState::CpuReady { .. } => true,
                    _ => false,
                },
                Tally::Committed => self.records[i].committed.is_some(),
            };
            if hit {
                count = count + 1;
            }
            i = i + 1;
        }
        proof {
            assert(self.records@.take(i as int) =~= self.records@);
        }
        count
    }

    /// Records that own a chunk: resident, or retiring with their chunk.
    pub fn resident_payload_count(&self) -> (count: usize)
        ensures
            count == count_records(self.spec_records(), Tally::Payload),
    {
        self.count(Tally::Payload)
    }

    /// Retired records still waiting for their bounded release.
    pub fn eviction_backlog(&self) -> (count: usize)
        ensures
            count == count_records(self.spec_records(), Tally::EvictPending),
    {
        self.count(Tally::EvictPending)
    }

    pub fn ready_mesh_count(&self) -> (count: usize)
        ensures
            count == count_records(self.spec_records(), Tally::Ready),
    {
        self.count(Tally::Ready)
    }

    pub fn committed_mesh_count(&self) -> (count: usize)
        ensures
            count == count_records(self.spec_records(), Tally::Committed),
    {
        self.count(Tally::Committed)
    }

    pub fn tracked_count(&self) -> (count: usize)
        ensures
            count == self.spec_records().len(),
    {
        self.records.len()
    }

    pub fn reserved_load_count(&self) -> (count: usize)
        ensures
            count == self.spec_reserved().len(),
    {
        self.reserved_load_slots.len()
    }

    /// Bytes of the chunks owned, wrapping at the width of `usize`.
    pub fn logical_resident_bytes(&self) -> (bytes: usize)
        ensures
            bytes == vstd::wrapping::usize_specs::wrapping_mul(
                count_records(self.spec_records(), Tally::Payload) as usize,
                CHUNK_BYTES,
            ),
    {
        let count = self.resident_payload_count();
        count.wrapping_mul(CHUNK_BYTES)
    }
}

} // verus!
