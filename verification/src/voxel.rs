//! The voxel vocabulary the world is written in: identifiers, chunk
//! coordinates, the six axial faces and a dense `32³` chunk of cells.
//!
//! Deliberately a plain container with no terrain meaning. Cells are stored in
//! the grid's own linear order, `x + EDGE * (y + EDGE * z)`.

use vstd::prelude::*;

verus! {

/// Cells per chunk edge.
pub const CHUNK_EDGE: usize = 32;
/// Cells per chunk.
pub const CHUNK_VOLUME: usize = 32768;
/// Bytes of a chunk's cells, one `u16` each.
pub const CHUNK_BYTES: usize = 65536;

/// A stable voxel identifier. Zero is air.
#[derive(Clone, Copy, Debug, PartialEq, Eq, Structural)]
pub struct VoxelId(pub u16);

impl VoxelId {
    /// The empty cell.
    pub fn air() -> (id: VoxelId)
        ensures
            id.0 == 0,
    {
        VoxelId(0)
    }

    pub fn is_air(self) -> (air: bool)
        ensures
            air == (self.0 == 0),
    {
        self.0 == 0
    }
}

/// Position of a chunk in chunk units.
#[derive(Clone, Copy, Debug, Default, PartialEq, Eq, Hash, PartialOrd, Ord, Structural)]
pub struct ChunkCoord {
    pub x: i32,
    pub y: i32,
    pub z: i32,
}

/// One of the six axial directions, in the fixed `ALL` order.
#[derive(Clone, Copy, Debug, PartialEq, Eq, Structural)]
pub enum Face {
    PositiveX,
    NegativeX,
    PositiveY,
    NegativeY,
    PositiveZ,
    NegativeZ,
}

/// Unit offset of a face, as `(dx, dy, dz)`.
pub open spec fn face_offset(face: Face) -> (int, int, int) {
    match face {
        Face::PositiveX => (1, 0, 0),
        Face::NegativeX => (-1, 0, 0),
        Face::PositiveY => (0, 1, 0),
        Face::NegativeY => (0, -1, 0),
        Face::PositiveZ => (0, 0, 1),
        Face::NegativeZ => (0, 0, -1),
    }
}

/// Whether an integer fits an `i32`.
pub open spec fn fits_i32(value: int) -> bool {
    i32::MIN <= value <= i32::MAX
}

impl Face {
    /// Position of the face in the `ALL` order.
    pub fn index(self) -> (index: usize)
        ensures
            index < 6,
            index == face_index(self),
    {
        match self {
            Face::PositiveX => 0,
            Face::NegativeX => 1,
            Face::PositiveY => 2,
            Face::NegativeY => 3,
            Face::PositiveZ => 4,
            Face::NegativeZ => 5,
        }
    }

    /// The face at a position of the `ALL` order.
    pub fn from_index(index: usize) -> (face: Face)
        requires
            index < 6,
        ensures
            face_index(face) == index,
    {
        match index {
            0 => Face::PositiveX,
            1 => Face::NegativeX,
            2 => Face::PositiveY,
            3 => Face::NegativeY,
            4 => Face::PositiveZ,
            _ => Face::NegativeZ,
        }
    }
}

/// Position of a face in the `ALL` order.
pub open spec fn face_index(face: Face) -> int {
    match face {
        Face::PositiveX => 0,
        Face::NegativeX => 1,
        Face::PositiveY => 2,
        Face::NegativeY => 3,
        Face::PositiveZ => 4,
        Face::NegativeZ => 5,
    }
}

impl ChunkCoord {
    pub fn new(x: i32, y: i32, z: i32) -> (coord: ChunkCoord)
        ensures
            coord == (ChunkCoord { x, y, z }),
    {
        ChunkCoord { x, y, z }
    }

    /// The coordinate one step across `face`, if it fits the coordinate range.
    pub fn neighbor(self, face: Face) -> (next: Option<ChunkCoord>)
        ensures
            ({
                let (dx, dy, dz) = face_offset(face);
                let (x, y, z) = (self.x + dx, self.y + dy, self.z + dz);
                &&& (fits_i32(x) && fits_i32(y) && fits_i32(z)) ==> next == Some(
                    ChunkCoord { x: x as i32, y: y as i32, z: z as i32 },
                )
                &&& !(fits_i32(x) && fits_i32(y) && fits_i32(z)) ==> next is None
            }),
    {
        match face {
            Face::PositiveX => match self.x.checked_add(1) {
                Some(x) => Some(ChunkCoord { x, ..self }),
                None => None,
            },
            Face::NegativeX => match self.x.checked_sub(1) {
                Some(x) => Some(ChunkCoord { x, ..self }),
                None => None,
            },
            Face::PositiveY => match self.y.checked_add(1) {
                Some(y) => Some(ChunkCoord { y, ..self }),
                None => None,
            },
            Face::NegativeY => match self.y.checked_sub(1) {
                Some(y) => Some(ChunkCoord { y, ..self }),
                None => None,
            },
            Face::PositiveZ => match self.z.checked_add(1) {
                Some(z) => Some(ChunkCoord { z, ..self }),
                None => None,
            },
            Face::NegativeZ => match self.z.checked_sub(1) {
                Some(z) => Some(ChunkCoord { z, ..self }),
                None => None,
            },
        }
    }
}

/// Linear index of a local cell.
pub open spec fn cell_index(x: int, y: int, z: int) -> int {
    x + 32 * (y + 32 * z)
}

/// A dense chunk of `CHUNK_VOLUME` cells.
#[derive(Clone, Debug, PartialEq, Eq)]
pub struct Chunk {
    cells: Vec<u16>,
}

impl View for Chunk {
    type V = Seq<u16>;

    closed spec fn view(&self) -> Seq<u16> {
        self.cells@
    }
}

impl Chunk {
    /// Every chunk holds exactly one value per cell.
    pub open spec fn wf(&self) -> bool {
        self@.len() == CHUNK_VOLUME
    }

    /// A chunk of air.
    pub fn empty() -> (chunk: Chunk)
        ensures
            chunk.wf(),
            forall|i: int| 0 <= i < CHUNK_VOLUME ==> chunk@[i] == 0,
    {
        let mut cells: Vec<u16> = Vec::with_capacity(CHUNK_VOLUME);
        let mut index: usize = 0;
        while index < CHUNK_VOLUME
            invariant
                index <= CHUNK_VOLUME,
                cells@.len() == index,
                forall|i: int| 0 <= i < index ==> cells@[i] == 0,
            decreases CHUNK_VOLUME - index,
        {
            cells.push(0);
            index = index + 1;
        }
        Chunk { cells }
    }

    /// A chunk holding exactly the given cells.
    pub fn from_cells(cells: Vec<u16>) -> (chunk: Chunk)
        requires
            cells@.len() == CHUNK_VOLUME,
        ensures
            chunk.wf(),
            chunk@ == cells@,
    {
        Chunk { cells }
    }

    /// The cell at a linear index.
    pub fn read(&self, index: usize) -> (id: VoxelId)
        requires
            self.wf(),
            index < CHUNK_VOLUME,
        ensures
            id.0 == self@[index as int],
    {
        VoxelId(self.cells[index])
    }

    /// Replaces the cell at a linear index and returns what it held.
    pub fn write(&mut self, index: usize, id: VoxelId) -> (previous: VoxelId)
        requires
            old(self).wf(),
            index < CHUNK_VOLUME,
        ensures
            final(self).wf(),
            final(self)@ == old(self)@.update(index as int, id.0),
            previous.0 == old(self)@[index as int],
    {
        let previous = VoxelId(self.cells[index]);
        self.cells.set(index, id.0);
        previous
    }

    /// The cell at local coordinates, each below `CHUNK_EDGE`.
    pub fn read_local(&self, x: usize, y: usize, z: usize) -> (id: VoxelId)
        requires
            self.wf(),
            x < CHUNK_EDGE,
            y < CHUNK_EDGE,
            z < CHUNK_EDGE,
        ensures
            id.0 == self@[cell_index(x as int, y as int, z as int)],
    {
        self.read(x + CHUNK_EDGE * (y + CHUNK_EDGE * z))
    }

    /// Replaces the cell at local coordinates.
    pub fn write_local(&mut self, x: usize, y: usize, z: usize, id: VoxelId) -> (previous: VoxelId)
        requires
            old(self).wf(),
            x < CHUNK_EDGE,
            y < CHUNK_EDGE,
            z < CHUNK_EDGE,
        ensures
            final(self).wf(),
            final(self)@ == old(self)@.update(cell_index(x as int, y as int, z as int), id.0),
            previous.0 == old(self)@[cell_index(x as int, y as int, z as int)],
    {
        self.write(x + CHUNK_EDGE * (y + CHUNK_EDGE * z), id)
    }

    /// How many cells are not air.
    pub fn solid_count(&self) -> (count: usize)
        requires
            self.wf(),
        ensures
            count == solid_cells(self@),
    {
        let mut count: usize = 0;
        let mut index: usize = 0;
        while index < self.cells.len()
            invariant
                self.wf(),
                index <= self@.len(),
                count == solid_cells(self@.take(index as int)),
                count <= index,
            decreases self@.len() - index,
        {
            proof {
                assert(self@.take(index as int + 1).drop_last() =~= self@.take(index as int));
            }
            if self.cells[index] != 0 {
                count = count + 1;
            }
            index = index + 1;
        }
        proof {
            assert(self@.take(index as int) =~= self@);
        }
        count
    }
}

/// The non-air identifiers of a sequence of cells, each once, in the order
/// they first occur.
pub open spec fn distinct_solid(cells: Seq<u16>) -> Seq<u16>
    decreases cells.len(),
{
    if cells.len() == 0 {
        Seq::empty()
    } else {
        let earlier = distinct_solid(cells.drop_last());
        if cells.last() != 0 && !earlier.contains(cells.last()) {
            earlier.push(cells.last())
        } else {
            earlier
        }
    }
}

/// Every distinct non-air identifier in a chunk, in the order a scan of its
/// cells first meets it.
pub fn distinct_ids(chunk: &Chunk) -> (ids: Vec<VoxelId>)
    requires
        chunk.wf(),
    ensures
        ids@.map_values(|id: VoxelId| id.0) == distinct_solid(chunk@),
{
    let mut ids: Vec<VoxelId> = Vec::new();
    let mut index: usize = 0;
    while index < CHUNK_VOLUME
        invariant
            chunk.wf(),
            index <= CHUNK_VOLUME,
            ids@.map_values(|id: VoxelId| id.0) == distinct_solid(chunk@.take(index as int)),
        decreases CHUNK_VOLUME - index,
    {
        let id = chunk.read(index);
        let ghost before = ids@;
        let mut seen = false;
        let mut k: usize = 0;
        while k < ids.len()
            invariant
                k <= ids@.len(),
                seen == exists|j: int| 0 <= j < k && ids@[j].0 == id.0,
            decreases ids@.len() - k,
        {
            if ids[k].0 == id.0 {
                seen = true;
            }
            k = k + 1;
        }
        proof {
            let prefix = chunk@.take(index as int + 1);
            assert(prefix.drop_last() =~= chunk@.take(index as int));
            assert(prefix.last() == id.0);
            let views = ids@.map_values(|v: VoxelId| v.0);
            assert(seen == views.contains(id.0)) by {
                if seen {
                    let j = choose|j: int| 0 <= j < ids@.len() && ids@[j].0 == id.0;
                    assert(views[j] == id.0);
                }
                if views.contains(id.0) {
                    let j = choose|j: int| 0 <= j < views.len() && views[j] == id.0;
                    assert(ids@[j].0 == id.0);
                }
            }
        }
        if !id.is_air() && !seen {
            ids.push(id);
            proof {
                assert(ids@.map_values(|v: VoxelId| v.0) =~= before.map_values(|v: VoxelId| v.0).push(id.0));
            }
        }
        index = index + 1;
    }
    proof {
        assert(chunk@.take(CHUNK_VOLUME as int) =~= chunk@);
    }
    ids
}

/// Number of non-air cells in a sequence.
pub open spec fn solid_cells(cells: Seq<u16>) -> nat
    decreases cells.len(),
{
    if cells.len() == 0 {
        0
    } else {
        solid_cells(cells.drop_last()) + if cells.last() != 0 { 1nat } else { 0nat }
    }
}

} // verus!
