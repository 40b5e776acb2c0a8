use std::ops::Range;
use vstd::prelude::*;

use crate::block_config::{block_is_opaque, CubeFace};
use crate::coords::{BlockPos, ChunkCoord};
use crate::terrain::{chunk_in_world_range, world_of, TerrainSource};
use crate::voxels::{
    count_solid, count_solid_in, in_chunk, index_subchunk, index_x, index_y, index_z,
    lemma_local_index, lemma_or_bit, lemma_zero_mask, local_index, mask_has, subchunk_bit,
    subchunk_index, BlockId, Chunk, ChunkView, AIR_BLOCK, CHUNK_AREA, CHUNK_SIZE,
    CHUNK_VOLUME, STONE_BLOCK, SUBCHUNK_COUNT, SUBCHUNK_SIZE,
};
use crate::world::{offset_of, VoxelWorld};

verus! {

/// Blocks on one face of a chunk.
pub const CHUNK_BORDER_BLOCKS: usize = 1024;

/// A direction along an axis.
#[derive(Debug, Clone, Copy, PartialEq, Eq, Structural)]
pub enum Direction {
    PosX,
    NegX,
    PosY,
    NegY,
    PosZ,
    NegZ,
}

pub open spec fn dir_index(d: Direction) -> int {
    match d {
        Direction::PosX => 0,
        Direction::NegX => 1,
        Direction::PosY => 2,
        Direction::NegY => 3,
        Direction::PosZ => 4,
        Direction::NegZ => 5,
    }
}

pub open spec fn dir_from_index(i: int) -> Direction {
    if i == 0 {
        Direction::PosX
    } else if i == 1 {
        Direction::NegX
    } else if i == 2 {
        Direction::PosY
    } else if i == 3 {
        Direction::NegY
    } else if i == 4 {
        Direction::PosZ
    } else {
        Direction::NegZ
    }
}

impl Direction {
    /// Position of the direction in `+x, -x, +y, -y, +z, -z` order.
    pub fn neighbor_index(self) -> (i: usize)
        ensures
            i == dir_index(self),
            i < 6,
    {
        match self {
            Direction::PosX => 0,
            Direction::NegX => 1,
            Direction::PosY => 2,
            Direction::NegY => 3,
            Direction::PosZ => 4,
            Direction::NegZ => 5,
        }
    }
}

fn direction_at(i: usize) -> (d: Direction)
    requires
        i < 6,
    ensures
        d == dir_from_index(i as int),
        dir_index(d) == i,
{
    if i == 0 {
        Direction::PosX
    } else if i == 1 {
        Direction::NegX
    } else if i == 2 {
        Direction::PosY
    } else if i == 3 {
        Direction::NegY
    } else if i == 4 {
        Direction::PosZ
    } else {
        Direction::NegZ
    }
}

/// The cube face that looks along a direction.
pub fn cube_face(direction: Direction) -> (f: CubeFace)
    ensures
        f == (match direction {
            Direction::PosX => CubeFace::PosX,
            Direction::NegX => CubeFace::NegX,
            Direction::PosY => CubeFace::PosY,
            Direction::NegY => CubeFace::NegY,
            Direction::PosZ => CubeFace::PosZ,
            Direction::NegZ => CubeFace::NegZ,
        }),
{
    match direction {
        Direction::PosX => CubeFace::PosX,
        Direction::NegX => CubeFace::NegX,
        Direction::PosY => CubeFace::PosY,
        Direction::NegY => CubeFace::NegY,
        Direction::PosZ => CubeFace::PosZ,
        Direction::NegZ => CubeFace::NegZ,
    }
}

/// The neighbor of local `(x, y, z)` in direction `d` when it lies in the same chunk.
pub open spec fn inside_neighbor(d: Direction, x: int, y: int, z: int) -> Option<(int, int, int)> {
    match d {
        Direction::PosX => if x + 1 < 32 { Some((x + 1, y, z)) } else { None },
        Direction::NegX => if x > 0 { Some((x - 1, y, z)) } else { None },
        Direction::PosY => if y + 1 < 32 { Some((x, y + 1, z)) } else { None },
        Direction::NegY => if y > 0 { Some((x, y - 1, z)) } else { None },
        Direction::PosZ => if z + 1 < 32 { Some((x, y, z + 1)) } else { None },
        Direction::NegZ => if z > 0 { Some((x, y, z - 1)) } else { None },
    }
}

/// The neighboring chunk across the face of a chunk at `coord` in direction `d`.
pub open spec fn neighbor_coord(coord: ChunkCoord, d: Direction) -> ChunkCoord {
    match d {
        Direction::PosX => offset_of(coord, 1, 0, 0),
        Direction::NegX => offset_of(coord, -1, 0, 0),
        Direction::PosY => offset_of(coord, 0, 1, 0),
        Direction::NegY => offset_of(coord, 0, -1, 0),
        Direction::PosZ => offset_of(coord, 0, 0, 1),
        Direction::NegZ => offset_of(coord, 0, 0, -1),
    }
}

/// The local position, in the neighboring chunk, across the face in direction `d`.
pub open spec fn across_face(d: Direction, x: int, y: int, z: int) -> (int, int, int) {
    match d {
        Direction::PosX => (0, y, z),
        Direction::NegX => (31, y, z),
        Direction::PosY => (x, 0, z),
        Direction::NegY => (x, 31, z),
        Direction::PosZ => (x, y, 0),
        Direction::NegZ => (x, y, 31),
    }
}

/// The block across the chunk face in the live world; stone where the neighbor chunk
/// is not loaded.
pub open spec fn world_outside_block(
    m: Map<ChunkCoord, ChunkView>,
    coord: ChunkCoord,
    d: Direction,
    x: int,
    y: int,
    z: int,
) -> BlockId {
    let n = neighbor_coord(coord, d);
    let p = across_face(d, x, y, z);
    if m.contains_key(n) {
        m[n].block(p.0, p.1, p.2)
    } else {
        STONE_BLOCK
    }
}

/// The block next to local `(x, y, z)` in direction `d`: from the chunk itself, or from
/// `outside` across the chunk face.
pub open spec fn neighbor_block_spec(
    chunk: ChunkView,
    outside: spec_fn(Direction, int, int, int) -> BlockId,
    d: Direction,
    x: int,
    y: int,
    z: int,
) -> BlockId {
    match inside_neighbor(d, x, y, z) {
        Some(p) => chunk.block(p.0, p.1, p.2),
        None => outside(d, x, y, z),
    }
}

/// The face of block `i` toward `d` is drawn: the block is solid and its neighbor is air.
pub open spec fn face_visible(
    chunk: ChunkView,
    outside: spec_fn(Direction, int, int, int) -> BlockId,
    i: int,
    d: Direction,
) -> bool {
    &&& chunk.blocks[i] != AIR_BLOCK
    &&& neighbor_block_spec(chunk, outside, d, index_x(i), index_y(i), index_z(i)) == AIR_BLOCK
}

/// A drawn face of a solid block.
#[derive(Debug, Clone, Copy, PartialEq, Eq, Structural)]
pub struct MeshFace {
    pub x: usize,
    pub y: usize,
    pub z: usize,
    pub world_pos: BlockPos,
    pub direction: Direction,
    pub block: BlockId,
}

pub open spec fn face_index(f: MeshFace) -> int {
    local_index(f.x as int, f.y as int, f.z as int)
}

pub open spec fn face_key(f: MeshFace) -> int {
    face_index(f) * 6 + dir_index(f.direction)
}

/// Which block indices a mesh covers: all, or one subchunk.
pub open spec fn in_mesh_region(sub: Option<int>, i: int) -> bool {
    match sub {
        Some(s) => index_subchunk(i) == s,
        None => true,
    }
}

/// `f` is the correct description of a drawn face of `chunk` at `coord` in the region.
pub open spec fn face_ok(
    chunk: ChunkView,
    coord: ChunkCoord,
    outside: spec_fn(Direction, int, int, int) -> BlockId,
    sub: Option<int>,
    f: MeshFace,
) -> bool {
    &&& in_chunk(f.x as int, f.y as int, f.z as int)
    &&& in_mesh_region(sub, face_index(f))
    &&& face_visible(chunk, outside, face_index(f), f.direction)
    &&& f.block == chunk.blocks[face_index(f)]
    &&& f.world_pos == (BlockPos {
        x: world_of(coord.x, f.x as int),
        y: world_of(coord.y, f.y as int),
        z: world_of(coord.z, f.z as int),
    })
}

/// `faces` hold, in increasing key order, exactly the drawn faces of the region whose
/// key (`block index * 6 + direction index`) is below `lim`.
pub open spec fn faces_upto(
    chunk: ChunkView,
    coord: ChunkCoord,
    outside: spec_fn(Direction, int, int, int) -> BlockId,
    sub: Option<int>,
    faces: Seq<MeshFace>,
    lim: int,
) -> bool {
    &&& forall|a: int, b: int|
        0 <= a < b < faces.len() ==> face_key(#[trigger] faces[a]) < face_key(#[trigger] faces[b])
    &&& forall|a: int|
        0 <= a < faces.len() ==> face_ok(chunk, coord, outside, sub, #[trigger] faces[a])
            && face_key(faces[a]) < lim
    &&& forall|i: int, d: Direction|
        0 <= i < CHUNK_VOLUME && i * 6 + dir_index(d) < lim && in_mesh_region(sub, i)
            && #[trigger] face_visible(chunk, outside, i, d) ==> exists|a: int|
            0 <= a < faces.len() && face_key(#[trigger] faces[a]) == i * 6 + dir_index(d)
}

/// `faces` are exactly the drawn faces of the region, in block order then direction
/// order.
pub open spec fn faces_exact(
    chunk: ChunkView,
    coord: ChunkCoord,
    outside: spec_fn(Direction, int, int, int) -> BlockId,
    sub: Option<int>,
    faces: Seq<MeshFace>,
) -> bool {
    faces_upto(chunk, coord, outside, sub, faces, CHUNK_VOLUME * 6)
}

/// Bit `s` of `mask` is set exactly when some face lies in subchunk `s`.
pub open spec fn mask_of_faces(mask: u8, faces: Seq<MeshFace>) -> bool {
    forall|s: int|
        #[trigger] mask_has(mask, s) <==> exists|a: int|
            0 <= a < faces.len() && index_subchunk(face_index(#[trigger] faces[a])) == s
}

/// The abstract content of a face mesh.
pub struct MeshFacesView {
    pub faces: Seq<MeshFace>,
    pub visible_face_count: u32,
    pub subchunk_visible_mask: u8,
}

/// The drawn faces of a chunk or subchunk, with their count and the mask of subchunks
/// that have any.
pub struct MeshFaces {
    pub faces: Vec<MeshFace>,
    pub visible_face_count: u32,
    pub subchunk_visible_mask: u8,
}

/// `m` describes exactly the drawn faces of the region.
pub open spec fn mesh_exact(
    chunk: ChunkView,
    coord: ChunkCoord,
    outside: spec_fn(Direction, int, int, int) -> BlockId,
    sub: Option<int>,
    m: MeshFacesView,
) -> bool {
    &&& faces_exact(chunk, coord, outside, sub, m.faces)
    &&& m.visible_face_count == m.faces.len()
    &&& mask_of_faces(m.subchunk_visible_mask, m.faces)
}

impl View for MeshFaces {
    type V = MeshFacesView;

    open spec fn view(&self) -> MeshFacesView {
        MeshFacesView {
            faces: self.faces@,
            visible_face_count: self.visible_face_count,
            subchunk_visible_mask: self.subchunk_visible_mask,
        }
    }
}

impl MeshFaces {
    /// A mesh without faces.
    pub fn empty() -> (m: MeshFaces)
        ensures
            m@.faces.len() == 0,
            m@.visible_face_count == 0,
            m@.subchunk_visible_mask == 0,
    {
        MeshFaces { faces: Vec::new(), visible_face_count: 0, subchunk_visible_mask: 0 }
    }

    /// Two triangles per face.
    pub fn triangle_count(&self) -> (n: usize)
        requires
            self.faces@.len() <= CHUNK_VOLUME * 6,
        ensures
            n == 2 * self.faces@.len(),
    {
        self.faces.len() * 2
    }

    /// Four vertices per face.
    pub fn vertex_count(&self) -> (n: usize)
        requires
            self.faces@.len() <= CHUNK_VOLUME * 6,
        ensures
            n == 4 * self.faces@.len(),
    {
        self.faces.len() * 4
    }

    /// Six indices per face.
    pub fn index_count(&self) -> (n: usize)
        requires
            self.faces@.len() <= CHUNK_VOLUME * 6,
        ensures
            n == 6 * self.faces@.len(),
    {
        self.faces.len() * 6
    }

    /// Whether some subchunk has a drawn face.
    pub fn has_visible_geometry(&self) -> (b: bool)
        ensures
            b == (self.subchunk_visible_mask != 0),
    {
        self.subchunk_visible_mask != 0
    }
}


/// A flat block index splits into its in-chunk coordinates.
pub proof fn lemma_index_parts(i: int)
    requires
        0 <= i < CHUNK_VOLUME,
    ensures
        in_chunk(index_x(i), index_y(i), index_z(i)),
        local_index(index_x(i), index_y(i), index_z(i)) == i,
{
    assert(i % 32 + ((i / 32) % 32) * 32 + (i / 1024) * 1024 == i && 0 <= i / 1024 < 32)
        by (nonlinear_arith)
        requires
            0 <= i < 32768,
    {
        assert(i == (i / 32) * 32 + i % 32);
        assert(i / 32 == ((i / 32) / 32) * 32 + (i / 32) % 32);
        assert((i / 32) / 32 == i / 1024);
    }
}

/// Where the blocks across a chunk's faces come from while meshing.
trait NeighborLookup {
    /// The lookup can answer for the chunk at `coord`.
    spec fn lookup_ready(&self, coord: ChunkCoord) -> bool;

    /// The block across the face of the chunk at `coord` in direction `d` from local
    /// `(x, y, z)`.
    spec fn outside_block(&self, coord: ChunkCoord, d: Direction, x: int, y: int, z: int) -> BlockId;

    fn outside(&self, coord: ChunkCoord, d: Direction, x: usize, y: usize, z: usize) -> (b: BlockId)
        requires
            self.lookup_ready(coord),
            in_chunk(x as int, y as int, z as int),
        ensures
            b == self.outside_block(coord, d, x as int, y as int, z as int),
    ;
}

/// The lookup as a function of direction and local position.
spec fn outside_fn<N: NeighborLookup>(src: N, coord: ChunkCoord) -> spec_fn(
    Direction,
    int,
    int,
    int,
) -> BlockId {
    |d: Direction, x: int, y: int, z: int| src.outside_block(coord, d, x, y, z)
}

/// The block next to local `(x, y, z)` in direction `dir`.
fn neighbor_block<N: NeighborLookup>(
    src: &N,
    chunk: &Chunk,
    coord: ChunkCoord,
    x: usize,
    y: usize,
    z: usize,
    dir: Direction,
) -> (b: BlockId)
    requires
        chunk.wf(),
        in_chunk(x as int, y as int, z as int),
        src.lookup_ready(coord),
    ensures
        b == neighbor_block_spec(chunk@, outside_fn(*src, coord), dir, x as int, y as int, z as int),
{
    match dir {
        Direction::PosX => if x + 1 < CHUNK_SIZE {
            chunk.get_block(x + 1, y, z)
        } else {
            src.outside(coord, dir, x, y, z)
        },
        Direction::NegX => if x > 0 {
            chunk.get_block(x - 1, y, z)
        } else {
            src.outside(coord, dir, x, y, z)
        },
        Direction::PosY => if y + 1 < CHUNK_SIZE {
            chunk.get_block(x, y + 1, z)
        } else {
            src.outside(coord, dir, x, y, z)
        },
        Direction::NegY => if y > 0 {
            chunk.get_block(x, y - 1, z)
        } else {
            src.outside(coord, dir, x, y, z)
        },
        Direction::PosZ => if z + 1 < CHUNK_SIZE {
            chunk.get_block(x, y, z + 1)
        } else {
            src.outside(coord, dir, x, y, z)
        },
        Direction::NegZ => if z > 0 {
            chunk.get_block(x, y, z - 1)
        } else {
            src.outside(coord, dir, x, y, z)
        },
    }
}

/// Appends the drawn faces of block `i` (at local `(x, y, z)`) to `faces`.
fn add_block_faces<N: NeighborLookup>(
    src: &N,
    chunk: &Chunk,
    coord: ChunkCoord,
    i: usize,
    x: usize,
    y: usize,
    z: usize,
    block: BlockId,
    faces: &mut Vec<MeshFace>,
    mask: &mut u8,
    Ghost(sub): Ghost<Option<int>>,
)
    requires
        chunk.wf(),
        chunk_in_world_range(coord),
        src.lookup_ready(coord),
        0 <= i < CHUNK_VOLUME,
        x == index_x(i as int),
        y == index_y(i as int),
        z == index_z(i as int),
        in_chunk(x as int, y as int, z as int),
        local_index(x as int, y as int, z as int) == i,
        block == chunk@.blocks[i as int],
        block != AIR_BLOCK,
        in_mesh_region(sub, i as int),
        faces_upto(chunk@, coord, outside_fn(*src, coord), sub, old(faces)@, i * 6),
        old(faces)@.len() <= i * 6,
        mask_of_faces(*old(mask), old(faces)@),
    ensures
        faces_upto(chunk@, coord, outside_fn(*src, coord), sub, final(faces)@, i * 6 + 6),
        final(faces)@.len() <= i * 6 + 6,
        mask_of_faces(*final(mask), final(faces)@),
{
    let ghost outside = outside_fn(*src, coord);
    let world_pos = BlockPos::new(
        coord.x * 32 + x as i32,
        coord.y * 32 + y as i32,
        coord.z * 32 + z as i32,
    );
    let s = subchunk_index(x, y, z);
    proof {
        lemma_local_index(x as int, y as int, z as int);
    }
    let mut k: usize = 0;
    while k < 6
        invariant
            chunk.wf(),
            src.lookup_ready(coord),
            outside == outside_fn(*src, coord),
            0 <= i < CHUNK_VOLUME,
            x == index_x(i as int),
            y == index_y(i as int),
            z == index_z(i as int),
            in_chunk(x as int, y as int, z as int),
            local_index(x as int, y as int, z as int) == i,
            index_subchunk(i as int) == s,
            s < 8,
            block == chunk@.blocks[i as int],
            block != AIR_BLOCK,
            in_mesh_region(sub, i as int),
            world_pos == (BlockPos {
                x: world_of(coord.x, x as int),
                y: world_of(coord.y, y as int),
                z: world_of(coord.z, z as int),
            }),
            0 <= k <= 6,
            faces_upto(chunk@, coord, outside, sub, faces@, i * 6 + k),
            faces@.len() <= i * 6 + k,
            mask_of_faces(*mask, faces@),
        decreases 6 - k,
    {
        let d = direction_at(k);
        let neighbor = neighbor_block(src, chunk, coord, x, y, z, d);
        let ghost before = faces@;
        let ghost mask_before = *mask;
        if !block_is_opaque(neighbor) {
            let bit = subchunk_bit(s);
            proof {
                lemma_or_bit(*mask, bit, s as u8);
            }
            *mask = *mask | bit;
            let f = MeshFace { x, y, z, world_pos, direction: d, block };
            faces.push(f);
            proof {
                let n = before.len() as int;
                assert(faces@[n] == f);
                assert(face_key(f) == i * 6 + k);
                assert(face_visible(chunk@, outside, i as int, d));
                assert forall|a: int| 0 <= a < n implies faces@[a] == before[a] by {}
                assert forall|a: int, b: int| 0 <= a < b < faces@.len() implies face_key(
                    #[trigger] faces@[a],
                ) < face_key(#[trigger] faces@[b]) by {
                    if b == n {
                        assert(face_key(before[a]) < i * 6 + k);
                    } else {
                        assert(face_key(before[a]) < face_key(before[b]));
                    }
                }
                assert forall|j: int, e: Direction|
                    0 <= j < CHUNK_VOLUME && j * 6 + dir_index(e) < i * 6 + k + 1 && in_mesh_region(
                        sub,
                        j,
                    ) && #[trigger] face_visible(chunk@, outside, j, e) implies exists|a: int|
                    0 <= a < faces@.len() && face_key(#[trigger] faces@[a]) == j * 6 + dir_index(
                        e,
                    ) by {
                    if j * 6 + dir_index(e) == i * 6 + k {
                        assert(face_key(faces@[n]) == j * 6 + dir_index(e));
                    } else {
                        let a = choose|a: int|
                            0 <= a < before.len() && face_key(#[trigger] before[a]) == j * 6
                                + dir_index(e);
                        assert(face_key(faces@[a]) == j * 6 + dir_index(e));
                    }
                }
                assert forall|t: int| #[trigger] mask_has(*mask, t) <==> exists|a: int|
                    0 <= a < faces@.len() && index_subchunk(face_index(#[trigger] faces@[a]))
                        == t by {
                    if t == s {
                        assert(index_subchunk(face_index(faces@[n])) == t);
                    } else if mask_has(mask_before, t) {
                        let a = choose|a: int|
                            0 <= a < before.len() && index_subchunk(
                                face_index(#[trigger] before[a]),
                            ) == t;
                        assert(index_subchunk(face_index(faces@[a])) == t);
                    } else {
                        if exists|a: int|
                            0 <= a < faces@.len() && index_subchunk(
                                face_index(#[trigger] faces@[a]),
                            ) == t {
                            let a = choose|a: int|
                                0 <= a < faces@.len() && index_subchunk(
                                    face_index(#[trigger] faces@[a]),
                                ) == t;
                            assert(a < n);
                            assert(index_subchunk(face_index(before[a])) == t);
                        }
                    }
                }
            }
        } else {
            proof {
                assert(!face_visible(chunk@, outside, i as int, d));
                assert forall|j: int, e: Direction|
                    0 <= j < CHUNK_VOLUME && j * 6 + dir_index(e) < i * 6 + k + 1 && in_mesh_region(
                        sub,
                        j,
                    ) && #[trigger] face_visible(chunk@, outside, j, e) implies exists|a: int|
                    0 <= a < faces@.len() && face_key(#[trigger] faces@[a]) == j * 6 + dir_index(
                        e,
                    ) by {
                    if j * 6 + dir_index(e) == i * 6 + k {
                        assert(j == i);
                        assert(e == d);
                    }
                }
            }
        }
        k = k + 1;
    }
}

/// Lower end of the half of an axis that a subchunk covers.
pub open spec fn axis_start(upper_half: bool) -> int {
    if upper_half {
        16
    } else {
        0
    }
}

/// The half of an axis covered by subchunks in the upper or lower half.
pub fn subchunk_axis_range(upper_half: bool) -> (r: Range<usize>)
    ensures
        r.start == axis_start(upper_half),
        r.end == axis_start(upper_half) + 16,
{
    if upper_half {
        SUBCHUNK_SIZE..CHUNK_SIZE
    } else {
        0..SUBCHUNK_SIZE
    }
}

/// The x, y and z ranges of the local positions in subchunk `subchunk` (bit 0 selects
/// the upper x half, bit 1 the upper y half, bit 2 the upper z half).
pub fn subchunk_ranges(subchunk: usize) -> (r: (Range<usize>, Range<usize>, Range<usize>))
    ensures
        r.0.start == axis_start(subchunk & 1 != 0),
        r.0.end == axis_start(subchunk & 1 != 0) + 16,
        r.1.start == axis_start(subchunk & 2 != 0),
        r.1.end == axis_start(subchunk & 2 != 0) + 16,
        r.2.start == axis_start(subchunk & 4 != 0),
        r.2.end == axis_start(subchunk & 4 != 0) + 16,
{
    (
        subchunk_axis_range(subchunk & 1 != 0),
        subchunk_axis_range(subchunk & 2 != 0),
        subchunk_axis_range(subchunk & 4 != 0),
    )
}

/// Block `i` lies in the box spanned by the three ranges.
pub open spec fn in_box(xr: Range<usize>, yr: Range<usize>, zr: Range<usize>, i: int) -> bool {
    &&& xr.start <= index_x(i) < xr.end
    &&& yr.start <= index_y(i) < yr.end
    &&& zr.start <= index_z(i) < zr.end
}

/// The box spanned by the ranges holds exactly the blocks of the region.
pub open spec fn box_is_region(
    xr: Range<usize>,
    yr: Range<usize>,
    zr: Range<usize>,
    region: Option<int>,
) -> bool {
    forall|i: int| 0 <= i < CHUNK_VOLUME ==> (in_box(xr, yr, zr, i) <==> #[trigger] in_mesh_region(region, i))
}

/// The ranges of a subchunk span exactly that subchunk.
pub proof fn lemma_subchunk_box(s: usize, xr: Range<usize>, yr: Range<usize>, zr: Range<usize>)
    requires
        s < 8,
        xr.start == axis_start(s & 1 != 0),
        xr.end == axis_start(s & 1 != 0) + 16,
        yr.start == axis_start(s & 2 != 0),
        yr.end == axis_start(s & 2 != 0) + 16,
        zr.start == axis_start(s & 4 != 0),
        zr.end == axis_start(s & 4 != 0) + 16,
    ensures
        box_is_region(xr, yr, zr, Some(s as int)),
{
    let bx = s & 1 != 0;
    let by = s & 2 != 0;
    let bz = s & 4 != 0;
    assert(s == (if bx { 1usize } else { 0 }) + (if by { 2usize } else { 0 }) + (if bz {
        4usize
    } else {
        0
    })) by (bit_vector)
        requires
            s < 8,
            bx == (s & 1 != 0),
            by == (s & 2 != 0),
            bz == (s & 4 != 0),
    ;
    assert forall|i: int| 0 <= i < CHUNK_VOLUME implies (in_box(xr, yr, zr, i)
        <==> #[trigger] in_mesh_region(Some(s as int), i)) by {
        lemma_index_parts(i);
    }
}

/// The drawn faces of the blocks of `chunk` inside the box spanned by the three ranges,
/// which must be the region `region`.
fn mesh_block_range<N: NeighborLookup>(
    chunk: &Chunk,
    coord: ChunkCoord,
    x_range: Range<usize>,
    y_range: Range<usize>,
    z_range: Range<usize>,
    src: &N,
    Ghost(region): Ghost<Option<int>>,
) -> (m: MeshFaces)
    requires
        chunk.wf(),
        chunk_in_world_range(coord),
        src.lookup_ready(coord),
        box_is_region(x_range, y_range, z_range, region),
    ensures
        mesh_exact(chunk@, coord, outside_fn(*src, coord), region, m@),
{
    let ghost outside = outside_fn(*src, coord);
    let mut faces: Vec<MeshFace> = Vec::new();
    let mut mask: u8 = 0;
    proof {
        lemma_zero_mask();
    }
    let mut i: usize = 0;
    while i < CHUNK_VOLUME
        invariant
            chunk.wf(),
            chunk_in_world_range(coord),
            src.lookup_ready(coord),
            outside == outside_fn(*src, coord),
            box_is_region(x_range, y_range, z_range, region),
            0 <= i <= CHUNK_VOLUME,
            faces_upto(chunk@, coord, outside, region, faces@, i * 6),
            faces@.len() <= i * 6,
            mask_of_faces(mask, faces@),
        decreases CHUNK_VOLUME - i,
    {
        let x = i % CHUNK_SIZE;
        let z = (i / CHUNK_SIZE) % CHUNK_SIZE;
        let y = i / CHUNK_AREA;
        proof {
            lemma_index_parts(i as int);
            lemma_local_index(x as int, y as int, z as int);
            assert(in_box(x_range, y_range, z_range, i as int) <==> in_mesh_region(region, i as int));
        }
        let wanted = x_range.start <= x && x < x_range.end && y_range.start <= y && y < y_range.end
            && z_range.start <= z && z < z_range.end;
        let block = chunk.get_block(x, y, z);
        if wanted && block != AIR_BLOCK {
            add_block_faces(
                src,
                chunk,
                coord,
                i,
                x,
                y,
                z,
                block,
                &mut faces,
                &mut mask,
                Ghost(region),
            );
        } else {
            proof {
                assert forall|j: int, e: Direction|
                    0 <= j < CHUNK_VOLUME && j * 6 + dir_index(e) < i * 6 + 6 && in_mesh_region(
                        region,
                        j,
                    ) && #[trigger] face_visible(chunk@, outside, j, e) implies exists|a: int|
                    0 <= a < faces@.len() && face_key(#[trigger] faces@[a]) == j * 6 + dir_index(
                        e,
                    ) by {
                    if j == i {
                        assert(false);
                    }
                }
            }
        }
        i = i + 1;
    }
    let count = faces.len() as u32;
    MeshFaces { faces, visible_face_count: count, subchunk_visible_mask: mask }
}

// ---------------------------------------------------------------------------
// Neighbor lookups
// ---------------------------------------------------------------------------

/// The block across the chunk face in the live world, as a function.
pub open spec fn live_outside(m: Map<ChunkCoord, ChunkView>, coord: ChunkCoord) -> spec_fn(
    Direction,
    int,
    int,
    int,
) -> BlockId {
    |d: Direction, x: int, y: int, z: int| world_outside_block(m, coord, d, x, y, z)
}

/// The block at local `(x, y, z)` of the chunk at `coord`; stone where that chunk is not
/// loaded.
fn neighbor_chunk_block<T: TerrainSource>(
    world: &VoxelWorld<T>,
    coord: ChunkCoord,
    x: usize,
    y: usize,
    z: usize,
) -> (b: BlockId)
    requires
        world.wf(),
        in_chunk(x as int, y as int, z as int),
    ensures
        b == (if world@.contains_key(coord) {
            world@[coord].block(x as int, y as int, z as int)
        } else {
            STONE_BLOCK
        }),
{
    match world.get_chunk(coord) {
        Some(chunk) => chunk.get_block(x, y, z),
        None => STONE_BLOCK,
    }
}

/// Blocks across chunk faces read from the live world.
struct LiveNeighbors<'a, T: TerrainSource> {
    world: &'a VoxelWorld<T>,
}

impl<'a, T: TerrainSource> NeighborLookup for LiveNeighbors<'a, T> {
    spec fn lookup_ready(&self, coord: ChunkCoord) -> bool {
        self.world.wf() && chunk_in_world_range(coord)
    }

    spec fn outside_block(&self, coord: ChunkCoord, d: Direction, x: int, y: int, z: int) -> BlockId {
        world_outside_block(self.world@, coord, d, x, y, z)
    }

    fn outside(&self, coord: ChunkCoord, d: Direction, x: usize, y: usize, z: usize) -> (b: BlockId) {
        match d {
            Direction::PosX => neighbor_chunk_block(self.world, coord.offset(1, 0, 0), 0, y, z),
            Direction::NegX => neighbor_chunk_block(
                self.world,
                coord.offset(-1, 0, 0),
                CHUNK_SIZE - 1,
                y,
                z,
            ),
            Direction::PosY => neighbor_chunk_block(self.world, coord.offset(0, 1, 0), x, 0, z),
            Direction::NegY => neighbor_chunk_block(
                self.world,
                coord.offset(0, -1, 0),
                x,
                CHUNK_SIZE - 1,
                z,
            ),
            Direction::PosZ => neighbor_chunk_block(self.world, coord.offset(0, 0, 1), x, y, 0),
            Direction::NegZ => neighbor_chunk_block(
                self.world,
                coord.offset(0, 0, -1),
                x,
                y,
                CHUNK_SIZE - 1,
            ),
        }
    }
}

/// Index into a captured border of the sample across the face in direction `d` from
/// local `(x, y, z)`.
pub open spec fn border_sample(d: Direction, x: int, y: int, z: int) -> int {
    match d {
        Direction::PosX | Direction::NegX => y + z * 32,
        Direction::PosY | Direction::NegY => x + z * 32,
        Direction::PosZ | Direction::NegZ => x + y * 32,
    }
}

/// The block of `c` on its face toward a chunk that lies in direction `-d` of it, at
/// in-face position `(a, b)`.
pub open spec fn face_block(c: ChunkView, d: Direction, a: int, b: int) -> BlockId {
    match d {
        Direction::PosX => c.block(0, a, b),
        Direction::NegX => c.block(31, a, b),
        Direction::PosY => c.block(a, 0, b),
        Direction::NegY => c.block(a, 31, b),
        Direction::PosZ => c.block(a, b, 0),
        Direction::NegZ => c.block(a, b, 31),
    }
}

/// The border of `c` as seen from the chunk on its `-d` side.
pub open spec fn border_of(c: ChunkView, d: Direction) -> Seq<BlockId> {
    Seq::new(CHUNK_BORDER_BLOCKS as nat, |i: int| face_block(c, d, i % 32, i / 32))
}

/// The border captured from the world for direction index `k` of the chunk at `coord`.
pub open spec fn captured_border(m: Map<ChunkCoord, ChunkView>, coord: ChunkCoord, k: int) -> Option<
    Seq<BlockId>,
> {
    let d = dir_from_index(k);
    let n = neighbor_coord(coord, d);
    if m.contains_key(n) {
        Some(border_of(m[n], d))
    } else {
        None
    }
}

/// The six borders captured from the world around `coord`.
pub open spec fn captured_borders(m: Map<ChunkCoord, ChunkView>, coord: ChunkCoord) -> Seq<
    Option<Seq<BlockId>>,
> {
    Seq::new(6, |k: int| captured_border(m, coord, k))
}

/// The block across the chunk face from captured borders; stone where none was
/// captured.
pub open spec fn snapshot_block(
    nb: Seq<Option<Seq<BlockId>>>,
    d: Direction,
    x: int,
    y: int,
    z: int,
) -> BlockId {
    match nb[dir_index(d)] {
        Some(b) => b[border_sample(d, x, y, z)],
        None => STONE_BLOCK,
    }
}

/// The block across the chunk face from captured borders, as a function.
pub open spec fn snapshot_outside(nb: Seq<Option<Seq<BlockId>>>) -> spec_fn(
    Direction,
    int,
    int,
    int,
) -> BlockId {
    |d: Direction, x: int, y: int, z: int| snapshot_block(nb, d, x, y, z)
}

/// Index of in-face position `(a, b)` in a captured border.
pub fn border_axis_index(a: usize, b: usize) -> (i: usize)
    requires
        a + b * 32 <= usize::MAX,
    ensures
        i == a + b * 32,
{
    a + b * CHUNK_SIZE
}

/// Index into a captured border of the sample across the face in `direction` from
/// local `(x, y, z)`.
pub fn border_sample_index(direction: Direction, x: usize, y: usize, z: usize) -> (i: usize)
    requires
        border_sample(direction, x as int, y as int, z as int) <= usize::MAX,
    ensures
        i == border_sample(direction, x as int, y as int, z as int),
{
    match direction {
        Direction::PosX | Direction::NegX => border_axis_index(y, z),
        Direction::PosY | Direction::NegY => border_axis_index(x, z),
        Direction::PosZ | Direction::NegZ => border_axis_index(x, y),
    }
}

/// The blocks of `chunk` on its face toward the chunk that lies in direction
/// `-direction` of it.
fn capture_neighbor_border(chunk: &Chunk, direction: Direction) -> (border: Vec<BlockId>)
    requires
        chunk.wf(),
    ensures
        border@ == border_of(chunk@, direction),
{
    let mut border: Vec<BlockId> = Vec::new();
    let mut i: usize = 0;
    while i < CHUNK_BORDER_BLOCKS
        invariant
            chunk.wf(),
            0 <= i <= CHUNK_BORDER_BLOCKS,
            border@.len() == i,
            forall|j: int| 0 <= j < i ==> border@[j] == face_block(chunk@, direction, j % 32, j / 32),
        decreases CHUNK_BORDER_BLOCKS - i,
    {
        let a = i % CHUNK_SIZE;
        let b = i / CHUNK_SIZE;
        let block = match direction {
            Direction::PosX => chunk.get_block(0, a, b),
            Direction::NegX => chunk.get_block(CHUNK_SIZE - 1, a, b),
            Direction::PosY => chunk.get_block(a, 0, b),
            Direction::NegY => chunk.get_block(a, CHUNK_SIZE - 1, b),
            Direction::PosZ => chunk.get_block(a, b, 0),
            Direction::NegZ => chunk.get_block(a, b, CHUNK_SIZE - 1),
        };
        border.push(block);
        i = i + 1;
    }
    assert(border@ =~= border_of(chunk@, direction));
    border
}

/// The chunk coordinates can be moved by one chunk along every axis.
pub open spec fn has_neighbor_coords(c: ChunkCoord) -> bool {
    &&& i32::MIN < c.x < i32::MAX
    &&& i32::MIN < c.y < i32::MAX
    &&& i32::MIN < c.z < i32::MAX
}

/// The six face neighbors of `coord` with their directions, in `+x, -x, +y, -y, +z, -z`
/// order.
pub fn neighbor_chunk_coords(coord: ChunkCoord) -> (r: [(Direction, ChunkCoord); 6])
    requires
        has_neighbor_coords(coord),
    ensures
        forall|k: int|
            0 <= k < 6 ==> #[trigger] r@[k] == (dir_from_index(k), neighbor_coord(coord, dir_from_index(k))),
{
    let r = [
        (Direction::PosX, coord.offset(1, 0, 0)),
        (Direction::NegX, coord.offset(-1, 0, 0)),
        (Direction::PosY, coord.offset(0, 1, 0)),
        (Direction::NegY, coord.offset(0, -1, 0)),
        (Direction::PosZ, coord.offset(0, 0, 1)),
        (Direction::NegZ, coord.offset(0, 0, -1)),
    ];
    r
}

/// Copies of the blocks on the faces of the six neighbors of a chunk, taken so that the
/// chunk can be meshed without the world.
pub struct NeighborBorders {
    borders: Vec<Option<Vec<BlockId>>>,
}

/// The content of a captured border, if any.
pub open spec fn border_view(o: Option<Vec<BlockId>>) -> Option<Seq<BlockId>> {
    match o {
        Some(v) => Some(v@),
        None => None,
    }
}

impl View for NeighborBorders {
    type V = Seq<Option<Seq<BlockId>>>;

    closed spec fn view(&self) -> Seq<Option<Seq<BlockId>>> {
        self.borders@.map_values(|o: Option<Vec<BlockId>>| border_view(o))
    }
}

impl NeighborBorders {
    /// One entry per direction; a captured border covers a whole chunk face.
    #[verifier::type_invariant]
    spec fn borders_complete(self) -> bool {
        &&& self.borders@.len() == 6
        &&& forall|k: int|
            0 <= k < 6 ==> (#[trigger] self.borders@[k] matches Some(b) ==> b@.len()
                == CHUNK_BORDER_BLOCKS)
    }

    /// Captures the borders of the loaded neighbors of the chunk at `coord`.
    pub fn from_world<T: TerrainSource>(world: &VoxelWorld<T>, coord: ChunkCoord) -> (nb: Self)
        requires
            world.wf(),
            has_neighbor_coords(coord),
        ensures
            nb@ == captured_borders(world@, coord),
    {
        let coords = neighbor_chunk_coords(coord);
        let mut borders: Vec<Option<Vec<BlockId>>> = Vec::new();
        let mut k: usize = 0;
        while k < 6
            invariant
                world.wf(),
                has_neighbor_coords(coord),
                forall|j: int|
                    0 <= j < 6 ==> #[trigger] coords@[j] == (dir_from_index(j), neighbor_coord(coord, dir_from_index(j))),
                0 <= k <= 6,
                borders@.len() == k,
                forall|j: int|
                    0 <= j < k ==> border_view(#[trigger] borders@[j]) == captured_border(
                        world@,
                        coord,
                        j,
                    ),
                forall|j: int|
                    0 <= j < k ==> (#[trigger] borders@[j] matches Some(b) ==> b@.len()
                        == CHUNK_BORDER_BLOCKS),
            decreases 6 - k,
        {
            let (direction, neighbor) = coords[k];
            proof {
                assert(coords@[k as int] == (dir_from_index(k as int), neighbor_coord(coord, dir_from_index(k as int))));
            }
            match world.get_chunk(neighbor) {
                Some(chunk) => {
                    let border = capture_neighbor_border(chunk, direction);
                    borders.push(Some(border));
                },
                None => {
                    borders.push(None);
                },
            }
            k = k + 1;
        }
        let nb = NeighborBorders { borders };
        assert(nb@ =~= captured_borders(world@, coord));
        nb
    }

    /// The block across the face in `direction` from local `(x, y, z)`; stone where the
    /// neighbor was not loaded.
    pub fn block(&self, direction: Direction, x: usize, y: usize, z: usize) -> (b: BlockId)
        requires
            in_chunk(x as int, y as int, z as int),
        ensures
            b == snapshot_block(self@, direction, x as int, y as int, z as int),
    {
        proof {
            use_type_invariant(self);
        }
        let k = direction.neighbor_index();
        match &self.borders[k] {
            Some(border) => border[border_sample_index(direction, x, y, z)],
            None => STONE_BLOCK,
        }
    }
}

impl NeighborLookup for NeighborBorders {
    spec fn lookup_ready(&self, coord: ChunkCoord) -> bool {
        true
    }

    spec fn outside_block(&self, coord: ChunkCoord, d: Direction, x: int, y: int, z: int) -> BlockId {
        snapshot_block(self@, d, x, y, z)
    }

    fn outside(&self, coord: ChunkCoord, d: Direction, x: usize, y: usize, z: usize) -> (b: BlockId) {
        self.block(d, x, y, z)
    }
}

// ---------------------------------------------------------------------------
// Meshing entry points
// ---------------------------------------------------------------------------

/// A count of zero solid blocks of subchunk `sub` means every block of it is air.
proof fn lemma_count_zero_in(blocks: Seq<BlockId>, sub: int, n: int)
    requires
        0 <= n <= blocks.len(),
        count_solid_in(blocks, sub, n) == 0,
    ensures
        forall|j: int| 0 <= j < n && index_subchunk(j) == sub ==> blocks[j] == AIR_BLOCK,
    decreases n,
{
    if n > 0 {
        lemma_count_zero_in(blocks, sub, n - 1);
    }
}

/// A count of zero solid blocks means every block is air.
proof fn lemma_count_zero(blocks: Seq<BlockId>, n: int)
    requires
        0 <= n <= blocks.len(),
        count_solid(blocks, n) == 0,
    ensures
        forall|j: int| 0 <= j < n ==> blocks[j] == AIR_BLOCK,
    decreases n,
{
    if n > 0 {
        lemma_count_zero(blocks, n - 1);
    }
}

/// A region of air has no drawn faces.
proof fn lemma_air_region_mesh(
    chunk: ChunkView,
    coord: ChunkCoord,
    outside: spec_fn(Direction, int, int, int) -> BlockId,
    region: Option<int>,
)
    requires
        forall|j: int| 0 <= j < CHUNK_VOLUME && in_mesh_region(region, j) ==> chunk.blocks[j] == AIR_BLOCK,
    ensures
        mesh_exact(
            chunk,
            coord,
            outside,
            region,
            MeshFacesView { faces: Seq::empty(), visible_face_count: 0, subchunk_visible_mask: 0 },
        ),
{
    lemma_zero_mask();
}

/// The mesh of the loaded chunk at `coord`, drawn against the live world; `None` when
/// the chunk is not loaded.
pub fn mesh_chunk<T: TerrainSource>(world: &VoxelWorld<T>, coord: ChunkCoord) -> (r: Option<
    MeshFaces,
>)
    requires
        world.wf(),
        chunk_in_world_range(coord),
    ensures
        r is Some <==> world@.contains_key(coord),
        r matches Some(m) ==> mesh_exact(world@[coord], coord, live_outside(world@, coord), None, m@),
{
    let chunk = match world.get_chunk(coord) {
        Some(c) => c,
        None => return None,
    };
    if chunk.is_empty() {
        proof {
            lemma_count_zero(chunk@.blocks, CHUNK_VOLUME as int);
            lemma_air_region_mesh(chunk@, coord, live_outside(world@, coord), None);
        }
        return Some(MeshFaces::empty());
    }
    let src = LiveNeighbors { world };
    let m = mesh_block_range(chunk, coord, 0..CHUNK_SIZE, 0..CHUNK_SIZE, 0..CHUNK_SIZE, &src, Ghost(None));
    proof {
        assert(outside_fn(src, coord) =~= live_outside(world@, coord));
    }
    Some(m)
}

/// The mesh of subchunk `subchunk` of the loaded chunk at `coord`, drawn against the
/// live world; `None` when the subchunk index is out of range or the chunk is not
/// loaded.
pub fn mesh_subchunk<T: TerrainSource>(
    world: &VoxelWorld<T>,
    coord: ChunkCoord,
    subchunk: usize,
) -> (r: Option<MeshFaces>)
    requires
        world.wf(),
        chunk_in_world_range(coord),
    ensures
        r is Some <==> subchunk < SUBCHUNK_COUNT && world@.contains_key(coord),
        r matches Some(m) ==> mesh_exact(
            world@[coord],
            coord,
            live_outside(world@, coord),
            Some(subchunk as int),
            m@,
        ),
{
    if subchunk >= SUBCHUNK_COUNT {
        return None;
    }
    let chunk = match world.get_chunk(coord) {
        Some(c) => c,
        None => return None,
    };
    if chunk.is_subchunk_empty(subchunk) {
        proof {
            lemma_count_zero_in(chunk@.blocks, subchunk as int, CHUNK_VOLUME as int);
            lemma_air_region_mesh(chunk@, coord, live_outside(world@, coord), Some(subchunk as int));
        }
        return Some(MeshFaces::empty());
    }
    let (x_range, y_range, z_range) = subchunk_ranges(subchunk);
    proof {
        lemma_subchunk_box(subchunk, x_range, y_range, z_range);
    }
    let src = LiveNeighbors { world };
    let m = mesh_block_range(chunk, coord, x_range, y_range, z_range, &src, Ghost(Some(subchunk as int)));
    proof {
        assert(outside_fn(src, coord) =~= live_outside(world@, coord));
    }
    Some(m)
}

/// The subchunks set in `mask` among the first `n`, in increasing order.
pub open spec fn mask_subchunks(mask: u8, n: int) -> Seq<usize>
    decreases n,
{
    if n <= 0 {
        Seq::empty()
    } else if mask_has(mask, n - 1) {
        mask_subchunks(mask, n - 1).push((n - 1) as usize)
    } else {
        mask_subchunks(mask, n - 1)
    }
}

/// Bit `s` of `mask` is set exactly when `mask & bit` is not zero.
proof fn lemma_mask_and_bit(mask: u8, bit: u8, s: u8)
    requires
        s < 8,
        bit == 1u8 << s,
    ensures
        (mask & bit != 0) == mask_has(mask, s as int),
{
    assert((mask & bit != 0) == ((mask >> s) & 1u8 == 1u8)) by (bit_vector)
        requires
            s < 8,
            bit == 1u8 << s,
    ;
}

/// The meshes of the dirty subchunks of the loaded chunk at `coord`, each with its
/// subchunk index, in increasing subchunk order; `None` when the chunk is not loaded.
pub fn mesh_dirty_subchunks<T: TerrainSource>(world: &VoxelWorld<T>, coord: ChunkCoord) -> (r:
    Option<Vec<(usize, MeshFaces)>>)
    requires
        world.wf(),
        chunk_in_world_range(coord),
    ensures
        r is Some <==> world@.contains_key(coord),
        r matches Some(v) ==> {
            let dirty = mask_subchunks(world@[coord].subchunk_dirty_mask, 8);
            &&& v@.len() == dirty.len()
            &&& forall|j: int|
                0 <= j < v@.len() ==> #[trigger] v@[j].0 == dirty[j] && mesh_exact(
                    world@[coord],
                    coord,
                    live_outside(world@, coord),
                    Some(v@[j].0 as int),
                    v@[j].1@,
                )
        },
{
    let chunk = match world.get_chunk(coord) {
        Some(c) => c,
        None => return None,
    };
    let dirty_mask = chunk.subchunk_dirty_mask();
    let mut meshes: Vec<(usize, MeshFaces)> = Vec::new();
    let mut subchunk: usize = 0;
    while subchunk < SUBCHUNK_COUNT
        invariant
            world.wf(),
            chunk_in_world_range(coord),
            world@.contains_key(coord),
            dirty_mask == world@[coord].subchunk_dirty_mask,
            0 <= subchunk <= SUBCHUNK_COUNT,
            meshes@.len() == mask_subchunks(dirty_mask, subchunk as int).len(),
            forall|j: int|
                0 <= j < meshes@.len() ==> #[trigger] meshes@[j].0 == mask_subchunks(
                    dirty_mask,
                    subchunk as int,
                )[j] && mesh_exact(
                    world@[coord],
                    coord,
                    live_outside(world@, coord),
                    Some(meshes@[j].0 as int),
                    meshes@[j].1@,
                ),
        decreases SUBCHUNK_COUNT - subchunk,
    {
        let bit = subchunk_bit(subchunk);
        proof {
            lemma_mask_and_bit(dirty_mask, bit, subchunk as u8);
        }
        if dirty_mask & bit != 0 {
            match mesh_subchunk(world, coord, subchunk) {
                Some(mesh) => {
                    meshes.push((subchunk, mesh));
                },
                None => {},
            }
        }
        subchunk = subchunk + 1;
    }
    Some(meshes)
}

/// A chunk copied out of the world together with the borders of its neighbors, so that
/// it can be meshed away from the world.
pub struct ChunkMeshInput {
    pub coord: ChunkCoord,
    pub revision: u32,
    pub center: Chunk,
    pub neighbor_borders: NeighborBorders,
}

impl ChunkMeshInput {
    /// Copies the chunk at `coord` and its neighbors' borders; `None` when the chunk is
    /// not loaded.
    pub fn from_world<T: TerrainSource>(world: &VoxelWorld<T>, coord: ChunkCoord) -> (r: Option<Self>)
        requires
            world.wf(),
            has_neighbor_coords(coord),
        ensures
            r is Some <==> world@.contains_key(coord),
            r matches Some(input) ==> {
                &&& input.coord == coord
                &&& input.center.wf()
                &&& input.center@ == world@[coord]
                &&& input.revision == world@[coord].revision
                &&& input.neighbor_borders@ == captured_borders(world@, coord)
            },
    {
        let center = match world.get_chunk(coord) {
            Some(c) => c.clone(),
            None => return None,
        };
        let revision = center.revision();
        let neighbor_borders = NeighborBorders::from_world(world, coord);
        Some(ChunkMeshInput { coord, revision, center, neighbor_borders })
    }
}

/// The mesh of a copied chunk, drawn against the captured neighbor borders.
pub fn mesh_chunk_input(input: &ChunkMeshInput) -> (m: MeshFaces)
    requires
        input.center.wf(),
        chunk_in_world_range(input.coord),
    ensures
        mesh_exact(
            input.center@,
            input.coord,
            snapshot_outside(input.neighbor_borders@),
            None,
            m@,
        ),
{
    if input.center.is_empty() {
        proof {
            lemma_count_zero(input.center@.blocks, CHUNK_VOLUME as int);
            lemma_air_region_mesh(
                input.center@,
                input.coord,
                snapshot_outside(input.neighbor_borders@),
                None,
            );
        }
        return MeshFaces::empty();
    }
    let m = mesh_block_range(
        &input.center,
        input.coord,
        0..CHUNK_SIZE,
        0..CHUNK_SIZE,
        0..CHUNK_SIZE,
        &input.neighbor_borders,
        Ghost(None),
    );
    proof {
        assert(outside_fn(input.neighbor_borders, input.coord) =~= snapshot_outside(
            input.neighbor_borders@,
        ));
    }
    m
}

// ---------------------------------------------------------------------------
// Laws of meshing
// ---------------------------------------------------------------------------

proof fn lemma_dir_index(d1: Direction, d2: Direction)
    ensures
        0 <= dir_index(d1) < 6,
        dir_index(d1) == dir_index(d2) ==> d1 == d2,
        dir_from_index(dir_index(d1)) == d1,
{
}

/// A drawn face is determined by its key.
proof fn lemma_face_determined(
    chunk: ChunkView,
    coord: ChunkCoord,
    outside: spec_fn(Direction, int, int, int) -> BlockId,
    region: Option<int>,
    f1: MeshFace,
    f2: MeshFace,
)
    requires
        face_ok(chunk, coord, outside, region, f1),
        face_ok(chunk, coord, outside, region, f2),
        face_key(f1) == face_key(f2),
    ensures
        f1 == f2,
{
    lemma_dir_index(f1.direction, f2.direction);
    lemma_dir_index(f2.direction, f1.direction);
    lemma_local_index(f1.x as int, f1.y as int, f1.z as int);
    lemma_local_index(f2.x as int, f2.y as int, f2.z as int);
    assert(face_index(f1) == face_index(f2));
    assert(f1.direction == f2.direction);
}

/// Face keys strictly increase along `s`.
pub open spec fn keys_sorted(s: Seq<MeshFace>) -> bool {
    forall|a: int, b: int| 0 <= a < b < s.len() ==> face_key(#[trigger] s[a]) < face_key(#[trigger] s[b])
}

/// Some face of `s` has key `k`.
pub open spec fn has_key(s: Seq<MeshFace>, k: int) -> bool {
    exists|b: int| 0 <= b < s.len() && face_key(#[trigger] s[b]) == k
}

/// Every key of `s1` is a key of `s2`.
pub open spec fn keys_within(s1: Seq<MeshFace>, s2: Seq<MeshFace>) -> bool {
    forall|a: int| 0 <= a < s1.len() ==> has_key(s2, face_key(#[trigger] s1[a]))
}

/// Dropping the last face of a sorted sequence removes exactly its largest key.
proof fn lemma_drop_last_keys(s1: Seq<MeshFace>, s2: Seq<MeshFace>)
    requires
        s1.len() > 0,
        s2.len() > 0,
        keys_sorted(s1),
        keys_sorted(s2),
        keys_within(s1, s2),
        face_key(s1.last()) == face_key(s2.last()),
    ensures
        keys_sorted(s1.drop_last()),
        keys_within(s1.drop_last(), s2.drop_last()),
{
    let t1 = s1.drop_last();
    let t2 = s2.drop_last();
    let n1 = s1.len() - 1;
    let n2 = s2.len() - 1;
    assert forall|a: int, b: int| 0 <= a < b < t1.len() implies face_key(#[trigger] t1[a]) < face_key(
        #[trigger] t1[b],
    ) by {
        assert(face_key(s1[a]) < face_key(s1[b]));
    }
    assert forall|a: int| 0 <= a < t1.len() implies has_key(t2, face_key(#[trigger] t1[a])) by {
        assert(face_key(s1[a]) < face_key(s1[n1]));
        assert(has_key(s2, face_key(s1[a])));
        let b = choose|b: int| 0 <= b < s2.len() && face_key(#[trigger] s2[b]) == face_key(s1[a]);
        if b == n2 {
            assert(false);
        }
        assert(face_key(t2[b]) == face_key(t1[a]));
    }
}

/// Two strictly increasing key sequences with the same keys agree position by position.
proof fn lemma_sorted_same_keys(s1: Seq<MeshFace>, s2: Seq<MeshFace>)
    requires
        keys_sorted(s1),
        keys_sorted(s2),
        keys_within(s1, s2),
        keys_within(s2, s1),
    ensures
        s1.len() == s2.len(),
        forall|a: int| 0 <= a < s1.len() ==> face_key(#[trigger] s1[a]) == face_key(s2[a]),
    decreases s1.len() + s2.len(),
{
    if s1.len() == 0 {
        if s2.len() > 0 {
            assert(has_key(s1, face_key(s2[0])));
        }
    } else if s2.len() == 0 {
        assert(has_key(s2, face_key(s1[0])));
    } else {
        let n1 = s1.len() - 1;
        let n2 = s2.len() - 1;
        assert(has_key(s2, face_key(s1[n1])));
        assert(has_key(s1, face_key(s2[n2])));
        let b = choose|b: int| 0 <= b < s2.len() && face_key(#[trigger] s2[b]) == face_key(s1[n1]);
        let a = choose|a: int| 0 <= a < s1.len() && face_key(#[trigger] s1[a]) == face_key(s2[n2]);
        if b < n2 {
            assert(face_key(s2[b]) < face_key(s2[n2]));
        }
        if a < n1 {
            assert(face_key(s1[a]) < face_key(s1[n1]));
        }
        assert(face_key(s1.last()) == face_key(s2.last()));
        lemma_drop_last_keys(s1, s2);
        lemma_drop_last_keys(s2, s1);
        lemma_sorted_same_keys(s1.drop_last(), s2.drop_last());
        assert forall|a: int| 0 <= a < s1.len() implies face_key(#[trigger] s1[a]) == face_key(
            s2[a],
        ) by {
            if a < n1 {
                assert(face_key(s1.drop_last()[a]) == face_key(s2.drop_last()[a]));
            }
        }
    }
}

/// A region of a chunk has exactly one exact mesh: the mesh contract pins the result
/// down completely.
pub proof fn lemma_mesh_unique(
    chunk: ChunkView,
    coord: ChunkCoord,
    outside: spec_fn(Direction, int, int, int) -> BlockId,
    region: Option<int>,
    m1: MeshFacesView,
    m2: MeshFacesView,
)
    requires
        mesh_exact(chunk, coord, outside, region, m1),
        mesh_exact(chunk, coord, outside, region, m2),
    ensures
        m1 == m2,
{
    let s1 = m1.faces;
    let s2 = m2.faces;
    assert forall|a: int| 0 <= a < s1.len() implies has_key(s2, face_key(#[trigger] s1[a])) by {
        let f = s1[a];
        let i = face_index(f);
        lemma_local_index(f.x as int, f.y as int, f.z as int);
        lemma_dir_index(f.direction, f.direction);
        assert(face_visible(chunk, outside, i, f.direction));
    }
    assert forall|b: int| 0 <= b < s2.len() implies has_key(s1, face_key(#[trigger] s2[b])) by {
        let f = s2[b];
        let i = face_index(f);
        lemma_local_index(f.x as int, f.y as int, f.z as int);
        lemma_dir_index(f.direction, f.direction);
        assert(face_visible(chunk, outside, i, f.direction));
    }
    lemma_sorted_same_keys(s1, s2);
    assert forall|a: int| 0 <= a < s1.len() implies s1[a] == s2[a] by {
        assert(face_key(s1[a]) == face_key(s2[a]));
        lemma_face_determined(chunk, coord, outside, region, s1[a], s2[a]);
    }
    assert(s1 =~= s2);
    assert forall|s: int| #[trigger] mask_has(m1.subchunk_visible_mask, s) == mask_has(
        m2.subchunk_visible_mask,
        s,
    ) by {}
    crate::voxels::lemma_mask_ext(m1.subchunk_visible_mask, m2.subchunk_visible_mask);
}

/// The subchunk meshes split the chunk mesh: a face is drawn for the whole chunk
/// exactly when it is drawn for the subchunk of its block, and each subchunk mesh holds
/// only faces of blocks in that subchunk.
pub proof fn lemma_subchunk_meshes_split_chunk_mesh(
    chunk: ChunkView,
    coord: ChunkCoord,
    outside: spec_fn(Direction, int, int, int) -> BlockId,
    whole: Seq<MeshFace>,
    parts: Seq<Seq<MeshFace>>,
)
    requires
        faces_exact(chunk, coord, outside, None, whole),
        parts.len() == SUBCHUNK_COUNT,
        forall|s: int| 0 <= s < SUBCHUNK_COUNT ==> faces_exact(chunk, coord, outside, Some(s), #[trigger] parts[s]),
    ensures
        forall|f: MeshFace|
            #[trigger] whole.contains(f) ==> {
                &&& 0 <= index_subchunk(face_index(f)) < SUBCHUNK_COUNT
                &&& parts[index_subchunk(face_index(f))].contains(f)
            },
        forall|s: int, f: MeshFace|
            0 <= s < SUBCHUNK_COUNT && #[trigger] parts[s].contains(f) ==> whole.contains(f)
                && index_subchunk(face_index(f)) == s,
{
    assert forall|f: MeshFace| #[trigger] whole.contains(f) implies {
        &&& 0 <= index_subchunk(face_index(f)) < SUBCHUNK_COUNT
        &&& parts[index_subchunk(face_index(f))].contains(f)
    } by {
        let a = choose|a: int| 0 <= a < whole.len() && whole[a] == f;
        assert(face_ok(chunk, coord, outside, None, whole[a]));
        let i = face_index(f);
        lemma_local_index(f.x as int, f.y as int, f.z as int);
        lemma_dir_index(f.direction, f.direction);
        lemma_index_parts(i);
        let s = index_subchunk(i);
        let part = parts[s];
        assert(face_visible(chunk, outside, i, f.direction));
        assert(in_mesh_region(Some(s), i));
        assert(i * 6 + dir_index(f.direction) < CHUNK_VOLUME * 6);
        let b = choose|b: int| 0 <= b < part.len() && face_key(#[trigger] part[b]) == i * 6 + dir_index(f.direction);
        assert(face_ok(chunk, coord, outside, Some(s), part[b]));
        assert(face_ok(chunk, coord, outside, None, part[b]));
        lemma_face_determined(chunk, coord, outside, None, f, part[b]);
        assert(part[b] == f);
    }
    assert forall|s: int, f: MeshFace|
        0 <= s < SUBCHUNK_COUNT && #[trigger] parts[s].contains(f) implies whole.contains(f)
        && index_subchunk(face_index(f)) == s by {
        let part = parts[s];
        let b = choose|b: int| 0 <= b < part.len() && part[b] == f;
        assert(face_ok(chunk, coord, outside, Some(s), part[b]));
        let i = face_index(f);
        lemma_local_index(f.x as int, f.y as int, f.z as int);
        lemma_dir_index(f.direction, f.direction);
        assert(face_visible(chunk, outside, i, f.direction));
        assert(in_mesh_region(None, i));
        let a = choose|a: int| 0 <= a < whole.len() && face_key(#[trigger] whole[a]) == i * 6 + dir_index(f.direction);
        assert(face_ok(chunk, coord, outside, None, whole[a]));
        assert(face_ok(chunk, coord, outside, None, f));
        lemma_face_determined(chunk, coord, outside, None, f, whole[a]);
    }
}

/// Meshing reads the outside only inside the chunk's coordinates, so two outside
/// functions that agree there give the same exact meshes.
proof fn lemma_mesh_outside_agree(
    chunk: ChunkView,
    coord: ChunkCoord,
    o1: spec_fn(Direction, int, int, int) -> BlockId,
    o2: spec_fn(Direction, int, int, int) -> BlockId,
    region: Option<int>,
    m: MeshFacesView,
)
    requires
        forall|d: Direction, x: int, y: int, z: int|
            in_chunk(x, y, z) ==> #[trigger] o1(d, x, y, z) == o2(d, x, y, z),
        mesh_exact(chunk, coord, o1, region, m),
    ensures
        mesh_exact(chunk, coord, o2, region, m),
{
    assert forall|i: int, d: Direction| 0 <= i < CHUNK_VOLUME implies #[trigger] face_visible(
        chunk,
        o1,
        i,
        d,
    ) == face_visible(chunk, o2, i, d) by {
        lemma_index_parts(i);
        assert(o1(d, index_x(i), index_y(i), index_z(i)) == o2(d, index_x(i), index_y(i), index_z(i)));
    }
    assert forall|a: int| 0 <= a < m.faces.len() implies face_ok(
        chunk,
        coord,
        o2,
        region,
        #[trigger] m.faces[a],
    ) by {
        let f = m.faces[a];
        lemma_local_index(f.x as int, f.y as int, f.z as int);
        assert(face_visible(chunk, o1, face_index(f), f.direction));
    }
    assert forall|i: int, d: Direction|
        0 <= i < CHUNK_VOLUME && i * 6 + dir_index(d) < CHUNK_VOLUME * 6 && in_mesh_region(region, i)
            && #[trigger] face_visible(chunk, o2, i, d) implies exists|a: int|
        0 <= a < m.faces.len() && face_key(#[trigger] m.faces[a]) == i * 6 + dir_index(d) by {
        assert(face_visible(chunk, o1, i, d));
    }
}

/// Captured borders answer every in-chunk lookup as the live world does.
proof fn lemma_captured_matches_live(m: Map<ChunkCoord, ChunkView>, coord: ChunkCoord)
    ensures
        forall|d: Direction, x: int, y: int, z: int|
            in_chunk(x, y, z) ==> #[trigger] snapshot_outside(captured_borders(m, coord))(d, x, y, z)
                == live_outside(m, coord)(d, x, y, z),
{
    assert forall|d: Direction, x: int, y: int, z: int| in_chunk(x, y, z) implies #[trigger] snapshot_outside(
        captured_borders(m, coord),
    )(d, x, y, z) == live_outside(m, coord)(d, x, y, z) by {
        lemma_dir_index(d, d);
        let k = dir_index(d);
        let n = neighbor_coord(coord, d);
        let s = border_sample(d, x, y, z);
        assert(captured_borders(m, coord)[k] == captured_border(m, coord, k));
        let (a, b) = match d {
            Direction::PosX | Direction::NegX => (y, z),
            Direction::PosY | Direction::NegY => (x, z),
            Direction::PosZ | Direction::NegZ => (x, y),
        };
        assert(s == a + b * 32);
        assert(0 <= a < 32 && 0 <= b < 32);
        assert(s % 32 == a && s / 32 == b && 0 <= s < 1024) by (nonlinear_arith)
            requires
                s == a + b * 32,
                0 <= a < 32,
                0 <= b < 32,
        ;
        if m.contains_key(n) {
            assert(border_of(m[n], d)[s] == face_block(m[n], d, a, b));
        }
    }
}

/// Meshing a copy taken with `ChunkMeshInput::from_world` gives exactly the mesh that
/// meshing the chunk in the live world gives.
pub proof fn lemma_snapshot_mesh_matches_live(
    m: Map<ChunkCoord, ChunkView>,
    coord: ChunkCoord,
    live: MeshFacesView,
    snapshot: MeshFacesView,
)
    requires
        m.contains_key(coord),
        mesh_exact(m[coord], coord, live_outside(m, coord), None, live),
        mesh_exact(m[coord], coord, snapshot_outside(captured_borders(m, coord)), None, snapshot),
    ensures
        live == snapshot,
{
    lemma_captured_matches_live(m, coord);
    lemma_mesh_outside_agree(
        m[coord],
        coord,
        snapshot_outside(captured_borders(m, coord)),
        live_outside(m, coord),
        None,
        snapshot,
    );
    lemma_mesh_unique(m[coord], coord, live_outside(m, coord), None, live, snapshot);
}

} // verus!
