use std::collections::hash_map::Entry;
use std::collections::HashMap;
use vstd::std_specs::iter::IteratorSpec;

use vstd::prelude::*;
use vstd::relations::injective_on;
use vstd::set_lib::{lemma_map_size, lemma_set_disjoint_lens};

use crate::coords::{BlockPos, ChunkCoord};
use crate::ordering::{priority_lt, sort_coords_yzx, yzx_priority};
use crate::terrain::{chunk_in_world_range, is_generated_chunk, TerrainSource, WorldGenerator};
use crate::voxels::{
    lemma_local_index, local_index, mask_has, subchunk_index, subchunk_of,
    world_to_chunk_coord, world_to_local_block, BlockId, Chunk, ChunkView, AIR_BLOCK, CHUNK_SIZE,
    SUBCHUNK_COUNT, SUBCHUNK_SIZE,
};

verus! {

broadcast use vstd::std_specs::hash::group_hash_axioms;

/// Radii, in chunks, of the zones kept around the player.
#[derive(Debug, Clone, Copy, PartialEq, Eq, Structural)]
pub struct WorldStreamingSettings {
    pub horizontal_load_radius: i32,
    pub vertical_load_radius: i32,
    pub render_radius: i32,
    pub simulation_radius: i32,
    pub mob_ai_radius: i32,
    pub save_unload_radius: i32,
}

impl WorldStreamingSettings {
    pub fn new(
        horizontal_load_radius: i32,
        vertical_load_radius: i32,
        render_radius: i32,
        simulation_radius: i32,
        mob_ai_radius: i32,
        save_unload_radius: i32,
    ) -> (s: Self)
        ensures
            s == (WorldStreamingSettings {
                horizontal_load_radius,
                vertical_load_radius,
                render_radius,
                simulation_radius,
                mob_ai_radius,
                save_unload_radius,
            }),
    {
        WorldStreamingSettings {
            horizontal_load_radius,
            vertical_load_radius,
            render_radius,
            simulation_radius,
            mob_ai_radius,
            save_unload_radius,
        }
    }

    /// Radius 1 everywhere, saving and unloading at radius 2.
    pub fn prototype() -> (s: Self)
        ensures
            s == (WorldStreamingSettings {
                horizontal_load_radius: 1,
                vertical_load_radius: 1,
                render_radius: 1,
                simulation_radius: 1,
                mob_ai_radius: 1,
                save_unload_radius: 2,
            }),
    {
        Self::new(1, 1, 1, 1, 1, 2)
    }
}

/// Whether the chunks that loading around `center` with `settings` would touch all lie
/// in the world's coordinate range, and are few enough to count.
pub fn load_box_fits(center: ChunkCoord, settings: WorldStreamingSettings) -> (b: bool)
    ensures
        b == (load_box_in_world_range(
            center,
            clamp_radius(settings.horizontal_load_radius),
            clamp_radius(settings.vertical_load_radius),
        ) && load_box_volume(
            clamp_radius(settings.horizontal_load_radius),
            clamp_radius(settings.vertical_load_radius),
        ) <= usize::MAX),
{
    let h: i64 = if settings.horizontal_load_radius < 0 {
        0
    } else {
        settings.horizontal_load_radius as i64
    };
    let v: i64 = if settings.vertical_load_radius < 0 {
        0
    } else {
        settings.vertical_load_radius as i64
    };
    let limit: i64 = 0x400_0000;
    let cx = center.x as i64;
    let cy = center.y as i64;
    let cz = center.z as i64;
    if !(-limit <= cx - h && cx + h < limit && -limit <= cy - v && cy + v < limit && -limit <= cz
        - h && cz + h < limit) {
        return false;
    }
    let side: u128 = (2 * h + 1) as u128;
    let height: u128 = (2 * v + 1) as u128;
    proof {
        assert(side * side <= 0x1_0000_0000_0000_0000u128) by (nonlinear_arith)
            requires
                side <= 0x1_0000_0000u128,
        ;
        assert(side * side * height <= 0x1_0000_0000_0000_0000u128 * 0x1_0000_0000u128) by (nonlinear_arith)
            requires
                side * side <= 0x1_0000_0000_0000_0000u128,
                height <= 0x1_0000_0000u128,
        ;
    }
    side * side * height <= usize::MAX as u128
}

/// Outcome of loading the chunks around a center.
#[derive(Debug, Clone, Copy, PartialEq, Eq, Structural)]
pub struct ChunkStreamingUpdate {
    pub center_chunk: ChunkCoord,
    pub requested_loads: usize,
    pub newly_loaded: usize,
    pub total_loaded: usize,
}

/// A requested block change.
#[derive(Debug, Clone, Copy, PartialEq, Eq, Structural)]
pub struct BlockEdit {
    pub pos: BlockPos,
    pub block: BlockId,
}

impl BlockEdit {
    pub fn new(pos: BlockPos, block: BlockId) -> (e: Self)
        ensures
            e == (BlockEdit { pos, block }),
    {
        BlockEdit { pos, block }
    }
}

/// Outcome of a batch of edits.
#[derive(Debug, Clone, Copy, Default, PartialEq, Eq, Structural)]
pub struct BlockEditSummary {
    pub requested_edits: usize,
    pub changed_blocks: usize,
}

#[derive(Clone, Copy)]
struct ChangedBlock {
    chunk_coord: ChunkCoord,
    lx: usize,
    ly: usize,
    lz: usize,
}

/// Key under which the chunk at `c` is stored.
pub open spec fn coord_key(c: ChunkCoord) -> u128 {
    ((c.x + 0x8000_0000int) * 0x1_0000_0000_0000_0000int + (c.y + 0x8000_0000int) * 0x1_0000_0000int
        + (c.z + 0x8000_0000int)) as u128
}

proof fn lemma_coord_key_injective(a: ChunkCoord, b: ChunkCoord)
    ensures
        coord_key(a) == coord_key(b) ==> a == b,
{
    let ka = (a.x + 0x8000_0000int) * 0x1_0000_0000_0000_0000int + (a.y + 0x8000_0000int)
        * 0x1_0000_0000int + (a.z + 0x8000_0000int);
    let kb = (b.x + 0x8000_0000int) * 0x1_0000_0000_0000_0000int + (b.y + 0x8000_0000int)
        * 0x1_0000_0000int + (b.z + 0x8000_0000int);
    assert(0 <= ka < 0x1_0000_0000_0000_0000_0000_0000);
    assert(0 <= kb < 0x1_0000_0000_0000_0000_0000_0000);
    if ka == kb {
        assert(a.z == b.z) by (nonlinear_arith)
            requires
                ka == kb,
                ka == (a.x + 0x8000_0000int) * 0x1_0000_0000_0000_0000int + (a.y + 0x8000_0000int)
                    * 0x1_0000_0000int + (a.z + 0x8000_0000int),
                kb == (b.x + 0x8000_0000int) * 0x1_0000_0000_0000_0000int + (b.y + 0x8000_0000int)
                    * 0x1_0000_0000int + (b.z + 0x8000_0000int),
                -0x8000_0000 <= a.x < 0x8000_0000,
                -0x8000_0000 <= a.y < 0x8000_0000,
                -0x8000_0000 <= a.z < 0x8000_0000,
                -0x8000_0000 <= b.x < 0x8000_0000,
                -0x8000_0000 <= b.y < 0x8000_0000,
                -0x8000_0000 <= b.z < 0x8000_0000,
        ;
        assert(a.y == b.y) by (nonlinear_arith)
            requires
                ka == kb,
                a.z == b.z,
                ka == (a.x + 0x8000_0000int) * 0x1_0000_0000_0000_0000int + (a.y + 0x8000_0000int)
                    * 0x1_0000_0000int + (a.z + 0x8000_0000int),
                kb == (b.x + 0x8000_0000int) * 0x1_0000_0000_0000_0000int + (b.y + 0x8000_0000int)
                    * 0x1_0000_0000int + (b.z + 0x8000_0000int),
                -0x8000_0000 <= a.x < 0x8000_0000,
                -0x8000_0000 <= a.y < 0x8000_0000,
                -0x8000_0000 <= b.x < 0x8000_0000,
                -0x8000_0000 <= b.y < 0x8000_0000,
        ;
    }
}

fn chunk_key(c: ChunkCoord) -> (k: u128)
    ensures
        k == coord_key(c),
{
    let x = (c.x as i64 + 0x8000_0000) as u128;
    let y = (c.y as i64 + 0x8000_0000) as u128;
    let z = (c.z as i64 + 0x8000_0000) as u128;
    x * 0x1_0000_0000_0000_0000 + y * 0x1_0000_0000 + z
}

/// The chunk that holds world block `p`.
pub open spec fn chunk_of(p: BlockPos) -> ChunkCoord {
    ChunkCoord { x: (p.x as int / 32) as i32, y: (p.y as int / 32) as i32, z: (p.z as int / 32) as i32 }
}

/// The block stored at `p` in a map of loaded chunks; air where no chunk is loaded.
pub open spec fn world_block(m: Map<ChunkCoord, ChunkView>, p: BlockPos) -> BlockId {
    let c = chunk_of(p);
    if m.contains_key(c) {
        m[c].block(p.x as int % 32, p.y as int % 32, p.z as int % 32)
    } else {
        AIR_BLOCK
    }
}

/// Every loaded chunk is consistent and stored under its own coordinate.
pub open spec fn chunks_wf(m: Map<ChunkCoord, ChunkView>) -> bool {
    forall|c: ChunkCoord| #[trigger] m.contains_key(c) ==> m[c].wf() && m[c].coord == c
}

/// Mask bit of subchunk `sub`.
pub open spec fn bit_of(sub: int) -> u8 {
    1u8 << (sub as u8)
}

/// `bit_of(sub)` when `c` holds, else no bit.
pub open spec fn cond_bit(c: bool, sub: int) -> u8 {
    if c {
        bit_of(sub)
    } else {
        0u8
    }
}

/// The chunk view with `bits` added to its dirty mask.
pub open spec fn marked(v: ChunkView, bits: u8) -> ChunkView {
    ChunkView { subchunk_dirty_mask: v.subchunk_dirty_mask | bits, ..v }
}

/// `c` moved by whole chunks.
pub open spec fn offset_of(c: ChunkCoord, dx: int, dy: int, dz: int) -> ChunkCoord {
    ChunkCoord { x: (c.x + dx) as i32, y: (c.y + dy) as i32, z: (c.z + dz) as i32 }
}

/// Dirty bits of the edited chunk after an edit at local `(lx, ly, lz)`: the edited
/// subchunk and, when the block lies on a subchunk boundary, the subchunk across it.
pub open spec fn own_marks(lx: int, ly: int, lz: int) -> u8 {
    cond_bit(lx == 15, subchunk_of(16, ly, lz)) | cond_bit(lx == 16, subchunk_of(15, ly, lz))
        | cond_bit(ly == 15, subchunk_of(lx, 16, lz)) | cond_bit(ly == 16, subchunk_of(lx, 15, lz))
        | cond_bit(lz == 15, subchunk_of(lx, ly, 16)) | cond_bit(lz == 16, subchunk_of(lx, ly, 15))
        | bit_of(subchunk_of(lx, ly, lz))
}

/// Dirty bits of chunk `n` after an edit at local `(lx, ly, lz)` of chunk `center`: a
/// neighbor across a chunk face that the block touches gets the subchunk facing it.
pub open spec fn neighbor_marks(center: ChunkCoord, lx: int, ly: int, lz: int, n: ChunkCoord) -> u8 {
    cond_bit(lx == 0 && n == offset_of(center, -1, 0, 0), subchunk_of(31, ly, lz)) | cond_bit(
        lx == 31 && n == offset_of(center, 1, 0, 0),
        subchunk_of(0, ly, lz),
    ) | cond_bit(ly == 0 && n == offset_of(center, 0, -1, 0), subchunk_of(lx, 31, lz)) | cond_bit(
        ly == 31 && n == offset_of(center, 0, 1, 0),
        subchunk_of(lx, 0, lz),
    ) | cond_bit(lz == 0 && n == offset_of(center, 0, 0, -1), subchunk_of(lx, ly, 31)) | cond_bit(
        lz == 31 && n == offset_of(center, 0, 0, 1),
        subchunk_of(lx, ly, 0),
    )
}

/// The revision after one change.
pub open spec fn next_revision(r: u32) -> u32 {
    if r == u32::MAX {
        0
    } else {
        (r + 1) as u32
    }
}

/// The chunk an edit of chunk `c` starts from: the loaded one, or a freshly generated one.
pub open spec fn edit_base(m: Map<ChunkCoord, ChunkView>, seed: u64, c: ChunkCoord, base: ChunkView) -> bool {
    if m.contains_key(c) {
        base == m[c]
    } else {
        is_generated_chunk(seed, c, base)
    }
}

/// `after` is `before` with the block at local `(lx, ly, lz)` replaced by `block`, the
/// revision advanced and `dirty` added to the dirty mask.
pub open spec fn edited(before: ChunkView, after: ChunkView, lx: int, ly: int, lz: int, block: BlockId, dirty: u8) -> bool {
    &&& after.wf()
    &&& after.blocks == before.blocks.update(local_index(lx, ly, lz), block)
    &&& after.coord == before.coord
    &&& after.subchunk_visible_mask == before.subchunk_visible_mask
    &&& after.subchunk_dirty_mask == before.subchunk_dirty_mask | dirty
    &&& after.revision == next_revision(before.revision)
}

pub proof fn lemma_or_assoc(d: u8, a: u8, b: u8)
    ensures
        (d | a) | b == d | (a | b),
        d | 0u8 == d,
{
    assert((d | a) | b == d | (a | b)) by (bit_vector);
    assert(d | 0u8 == d) by (bit_vector);
}

pub proof fn lemma_zero_or(n: u8)
    ensures
        0u8 | n == n,
{
    assert(0u8 | n == n) by (bit_vector);
}

/// The dirty bits of an edit include the edited subchunk.
pub proof fn lemma_own_marks_cover_edit(lx: int, ly: int, lz: int)
    ensures
        own_marks(lx, ly, lz) | bit_of(subchunk_of(lx, ly, lz)) == own_marks(lx, ly, lz),
{
    let p = cond_bit(lx == 15, subchunk_of(16, ly, lz)) | cond_bit(lx == 16, subchunk_of(15, ly, lz))
        | cond_bit(ly == 15, subchunk_of(lx, 16, lz)) | cond_bit(ly == 16, subchunk_of(lx, 15, lz))
        | cond_bit(lz == 15, subchunk_of(lx, ly, 16)) | cond_bit(lz == 16, subchunk_of(lx, ly, 15));
    let s = bit_of(subchunk_of(lx, ly, lz));
    assert(own_marks(lx, ly, lz) == p | s);
    assert((p | s) | s == p | s) by (bit_vector);
}

/// An edit marks no neighbor bits on its own chunk.
pub proof fn lemma_neighbor_marks_self(c: ChunkCoord, lx: int, ly: int, lz: int)
    requires
        chunk_in_world_range(c),
    ensures
        neighbor_marks(c, lx, ly, lz, c) == 0u8,
{
    assert(((((0u8 | 0u8) | 0u8) | 0u8) | 0u8) | 0u8 == 0u8) by (bit_vector);
}

pub proof fn lemma_or_absorb(d: u8, s: u8, own: u8)
    requires
        own | s == own,
    ensures
        (d | s) | own == d | own,
{
    assert((d | s) | own == d | own) by (bit_vector)
        requires
            own | s == own,
    ;
}

/// `q` is one of the six blocks that share a face with `p`.
pub open spec fn face_neighbor(p: BlockPos, q: BlockPos) -> bool {
    ||| q.x == p.x - 1 && q.y == p.y && q.z == p.z
    ||| q.x == p.x + 1 && q.y == p.y && q.z == p.z
    ||| q.x == p.x && q.y == p.y - 1 && q.z == p.z
    ||| q.x == p.x && q.y == p.y + 1 && q.z == p.z
    ||| q.x == p.x && q.y == p.y && q.z == p.z - 1
    ||| q.x == p.x && q.y == p.y && q.z == p.z + 1
}

/// The subchunk, within its chunk, that holds world block `q`.
pub open spec fn block_subchunk(q: BlockPos) -> int {
    subchunk_of(q.x as int % 32, q.y as int % 32, q.z as int % 32)
}

proof fn lemma_has7(d: u8, t1: u8, t2: u8, t3: u8, t4: u8, t5: u8, t6: u8, t7: u8, s: u8, k: int)
    requires
        s < 8,
        1 <= k <= 7,
        k == 1 ==> t1 == 1u8 << s,
        k == 2 ==> t2 == 1u8 << s,
        k == 3 ==> t3 == 1u8 << s,
        k == 4 ==> t4 == 1u8 << s,
        k == 5 ==> t5 == 1u8 << s,
        k == 6 ==> t6 == 1u8 << s,
        k == 7 ==> t7 == 1u8 << s,
    ensures
        ((d | ((((((t1 | t2) | t3) | t4) | t5) | t6) | t7)) >> s) & 1u8 == 1u8,
        ((d | (((((t1 | t2) | t3) | t4) | t5) | t6)) >> s) & 1u8 == 1u8 || k == 7,
{
    if k == 1 {
        assert(((d | ((((((t1 | t2) | t3) | t4) | t5) | t6) | t7)) >> s) & 1u8 == 1u8
            && ((d | (((((t1 | t2) | t3) | t4) | t5) | t6)) >> s) & 1u8 == 1u8) by (bit_vector)
            requires s < 8, t1 == 1u8 << s;
    } else if k == 2 {
        assert(((d | ((((((t1 | t2) | t3) | t4) | t5) | t6) | t7)) >> s) & 1u8 == 1u8
            && ((d | (((((t1 | t2) | t3) | t4) | t5) | t6)) >> s) & 1u8 == 1u8) by (bit_vector)
            requires s < 8, t2 == 1u8 << s;
    } else if k == 3 {
        assert(((d | ((((((t1 | t2) | t3) | t4) | t5) | t6) | t7)) >> s) & 1u8 == 1u8
            && ((d | (((((t1 | t2) | t3) | t4) | t5) | t6)) >> s) & 1u8 == 1u8) by (bit_vector)
            requires s < 8, t3 == 1u8 << s;
    } else if k == 4 {
        assert(((d | ((((((t1 | t2) | t3) | t4) | t5) | t6) | t7)) >> s) & 1u8 == 1u8
            && ((d | (((((t1 | t2) | t3) | t4) | t5) | t6)) >> s) & 1u8 == 1u8) by (bit_vector)
            requires s < 8, t4 == 1u8 << s;
    } else if k == 5 {
        assert(((d | ((((((t1 | t2) | t3) | t4) | t5) | t6) | t7)) >> s) & 1u8 == 1u8
            && ((d | (((((t1 | t2) | t3) | t4) | t5) | t6)) >> s) & 1u8 == 1u8) by (bit_vector)
            requires s < 8, t5 == 1u8 << s;
    } else if k == 6 {
        assert(((d | ((((((t1 | t2) | t3) | t4) | t5) | t6) | t7)) >> s) & 1u8 == 1u8
            && ((d | (((((t1 | t2) | t3) | t4) | t5) | t6)) >> s) & 1u8 == 1u8) by (bit_vector)
            requires s < 8, t6 == 1u8 << s;
    } else {
        assert(((d | ((((((t1 | t2) | t3) | t4) | t5) | t6) | t7)) >> s) & 1u8 == 1u8) by (bit_vector)
            requires s < 8, t7 == 1u8 << s;
    }
}

/// What a changing edit marks dirty, from block positions: after `set_block` stores at `p`
/// a block other than the one there (the chunk of `p` starting as `base`), the subchunk
/// holding `p`, and in the chunk of `p` and in every loaded chunk the subchunk holding
/// each face neighbor of `p`, is dirty.
pub proof fn lemma_edit_dirties_face_neighbors(
    before: Map<ChunkCoord, ChunkView>,
    after: Map<ChunkCoord, ChunkView>,
    seed: u64,
    p: BlockPos,
    block: BlockId,
    base: ChunkView,
    q: BlockPos,
)
    requires
        edit_base(before, seed, chunk_of(p), base),
        base.block(p.x as int % 32, p.y as int % 32, p.z as int % 32) != block,
        edited(
            base,
            after[chunk_of(p)],
            p.x as int % 32,
            p.y as int % 32,
            p.z as int % 32,
            block,
            own_marks(p.x as int % 32, p.y as int % 32, p.z as int % 32),
        ),
        forall|c: ChunkCoord| #[trigger] before.contains_key(c) && c != chunk_of(p) ==> after[c] == marked(
            before[c],
            neighbor_marks(chunk_of(p), p.x as int % 32, p.y as int % 32, p.z as int % 32, c),
        ),
        q == p || face_neighbor(p, q),
        before.contains_key(chunk_of(q)) || chunk_of(q) == chunk_of(p),
    ensures
        mask_has(after[chunk_of(q)].subchunk_dirty_mask, block_subchunk(q)),
{
    let cc = chunk_of(p);
    let lx = p.x as int % 32;
    let ly = p.y as int % 32;
    let lz = p.z as int % 32;
    let n = chunk_of(q);
    let s = block_subchunk(q);
    assert(0 <= s < 8);
    let su = s as u8;
    let o1 = cond_bit(lx == 15, subchunk_of(16, ly, lz));
    let o2 = cond_bit(lx == 16, subchunk_of(15, ly, lz));
    let o3 = cond_bit(ly == 15, subchunk_of(lx, 16, lz));
    let o4 = cond_bit(ly == 16, subchunk_of(lx, 15, lz));
    let o5 = cond_bit(lz == 15, subchunk_of(lx, ly, 16));
    let o6 = cond_bit(lz == 16, subchunk_of(lx, ly, 15));
    let o7 = bit_of(subchunk_of(lx, ly, lz));
    let a1 = cond_bit(lx == 0 && n == offset_of(cc, -1, 0, 0), subchunk_of(31, ly, lz));
    let a2 = cond_bit(lx == 31 && n == offset_of(cc, 1, 0, 0), subchunk_of(0, ly, lz));
    let a3 = cond_bit(ly == 0 && n == offset_of(cc, 0, -1, 0), subchunk_of(lx, 31, lz));
    let a4 = cond_bit(ly == 31 && n == offset_of(cc, 0, 1, 0), subchunk_of(lx, 0, lz));
    let a5 = cond_bit(lz == 0 && n == offset_of(cc, 0, 0, -1), subchunk_of(lx, ly, 31));
    let a6 = cond_bit(lz == 31 && n == offset_of(cc, 0, 0, 1), subchunk_of(lx, ly, 0));
    let own = own_marks(lx, ly, lz);
    assert(own == ((((((o1 | o2) | o3) | o4) | o5) | o6) | o7));
    if n == cc {
        let k: int = if q == p {
            7
        } else if q.x == p.x - 1 {
            if lx == 16 { 2 } else { 7 }
        } else if q.x == p.x + 1 {
            if lx == 15 { 1 } else { 7 }
        } else if q.y == p.y - 1 {
            if ly == 16 { 4 } else { 7 }
        } else if q.y == p.y + 1 {
            if ly == 15 { 3 } else { 7 }
        } else if q.z == p.z - 1 {
            if lz == 16 { 6 } else { 7 }
        } else {
            if lz == 15 { 5 } else { 7 }
        };
        lemma_has7(base.subchunk_dirty_mask, o1, o2, o3, o4, o5, o6, o7, su, k);
    } else {
        assert(before.contains_key(n));
        let nbr = neighbor_marks(cc, lx, ly, lz, n);
        assert(nbr == (((((a1 | a2) | a3) | a4) | a5) | a6));
        let k: int = if q.x == p.x - 1 {
            1
        } else if q.x == p.x + 1 {
            2
        } else if q.y == p.y - 1 {
            3
        } else if q.y == p.y + 1 {
            4
        } else if q.z == p.z - 1 {
            5
        } else {
            6
        };
        lemma_has7(before[n].subchunk_dirty_mask, a1, a2, a3, a4, a5, a6, 0u8, su, k);
    }
}

/// No edit after the `j`-th among the first `n` targets the same position.
pub open spec fn is_last_edit(edits: Seq<BlockEdit>, j: int, n: int) -> bool {
    forall|k: int| j < k < n ==> #[trigger] edits[k].pos != edits[j].pos
}

/// Some edit among the first `n` targets `p`.
pub open spec fn edits_target(edits: Seq<BlockEdit>, n: int, p: BlockPos) -> bool {
    exists|k: int| 0 <= k < n && #[trigger] edits[k].pos == p
}

/// Some edit among the first `n` targets a block of chunk `c`.
pub open spec fn edits_touch_chunk(edits: Seq<BlockEdit>, n: int, c: ChunkCoord) -> bool {
    exists|k: int| 0 <= k < n && #[trigger] chunk_of(edits[k].pos) == c
}

/// Number of edits among the first `n` whose block differs from `priors`, the blocks
/// found at their positions when they were applied.
pub open spec fn count_changed(edits: Seq<BlockEdit>, priors: Seq<BlockId>, n: int) -> nat
    decreases n,
{
    if n <= 0 {
        0
    } else {
        count_changed(edits, priors, n - 1) + (if priors[n - 1] != edits[n - 1].block {
            1nat
        } else {
            0nat
        })
    }
}

/// `priors[j]` is the block at the position of edit `j` when it was applied, as far as
/// the earlier edits and the starting world determine it: the block of the last earlier
/// edit of the same position, else the block the starting world held there when its
/// chunk was loaded.
#[verifier::opaque]
pub open spec fn priors_consistent(
    start: Map<ChunkCoord, ChunkView>,
    edits: Seq<BlockEdit>,
    priors: Seq<BlockId>,
    n: int,
) -> bool {
    &&& forall|j: int, k: int|
        #![trigger priors[j], edits[k]]
        0 <= k < j < n && edits[k].pos == edits[j].pos && is_last_edit(edits, k, j) ==> priors[j]
            == edits[k].block
    &&& forall|j: int|
        0 <= j < n && !edits_target(edits, j, edits[j].pos) && start.contains_key(
            chunk_of(edits[j].pos),
        ) ==> #[trigger] priors[j] == world_block(start, edits[j].pos)
}

/// The blocks of chunk `c` after the first `n` edits, starting from `blocks`: each edit
/// of a block of `c` stores its block there, in order.
pub open spec fn batch_blocks(blocks: Seq<BlockId>, edits: Seq<BlockEdit>, n: int, c: ChunkCoord) -> Seq<BlockId>
    decreases n,
{
    if n <= 0 {
        blocks
    } else {
        let e = edits[n - 1];
        let prev = batch_blocks(blocks, edits, n - 1, c);
        if chunk_of(e.pos) == c {
            prev.update(local_index(e.pos.x as int % 32, e.pos.y as int % 32, e.pos.z as int % 32), e.block)
        } else {
            prev
        }
    }
}

/// Number of the first `n` edits that changed a block of chunk `c`.
pub open spec fn changes_in(edits: Seq<BlockEdit>, priors: Seq<BlockId>, n: int, c: ChunkCoord) -> nat
    decreases n,
{
    if n <= 0 {
        0
    } else {
        changes_in(edits, priors, n - 1, c) + (if priors[n - 1] != edits[n - 1].block && chunk_of(
            edits[n - 1].pos,
        ) == c {
            1nat
        } else {
            0nat
        })
    }
}

/// A revision advanced `k` times, wrapping past the largest value.
pub open spec fn advanced_revision(r: u32, k: nat) -> u32
    decreases k,
{
    if k == 0 {
        r
    } else {
        next_revision(advanced_revision(r, (k - 1) as nat))
    }
}

/// Dirty bits that chunk `n` gets when the block at local `(lx, ly, lz)` of `center`
/// changes: the edit's own bits on `center`, the facing subchunk on a neighbor.
pub open spec fn change_marks(center: ChunkCoord, lx: int, ly: int, lz: int, n: ChunkCoord) -> u8 {
    (if n == center {
        own_marks(lx, ly, lz)
    } else {
        0u8
    }) | neighbor_marks(center, lx, ly, lz, n)
}

/// Dirty bits that chunk `c` gets when edit `e` changes its block.
pub open spec fn edit_marks(e: BlockEdit, c: ChunkCoord) -> u8 {
    change_marks(chunk_of(e.pos), e.pos.x as int % 32, e.pos.y as int % 32, e.pos.z as int % 32, c)
}

/// Dirty bits that chunk `c` gets from the edits among the first `n` that changed a block.
pub open spec fn batch_marks(edits: Seq<BlockEdit>, priors: Seq<BlockId>, n: int, c: ChunkCoord) -> u8
    decreases n,
{
    if n <= 0 {
        0u8
    } else if priors[n - 1] != edits[n - 1].block {
        batch_marks(edits, priors, n - 1, c) | edit_marks(edits[n - 1], c)
    } else {
        batch_marks(edits, priors, n - 1, c)
    }
}

/// The subchunk bits that storing the changed blocks among the first `n` edits sets on
/// chunk `c`, before the dirty marks of the batch.
spec fn edited_bits(edits: Seq<BlockEdit>, priors: Seq<BlockId>, n: int, c: ChunkCoord) -> u8
    decreases n,
{
    if n <= 0 {
        0u8
    } else if priors[n - 1] != edits[n - 1].block && chunk_of(edits[n - 1].pos) == c {
        edited_bits(edits, priors, n - 1, c) | bit_of(
            subchunk_of(
                edits[n - 1].pos.x as int % 32,
                edits[n - 1].pos.y as int % 32,
                edits[n - 1].pos.z as int % 32,
            ),
        )
    } else {
        edited_bits(edits, priors, n - 1, c)
    }
}

/// Chunk `after` is chunk `base` after the first `n` edits of a batch, with `priors` the
/// blocks the edits found: the edits of `c` stored in order, one revision step per
/// change, and the dirty bits of every change of the batch added.
pub open spec fn batch_chunk(
    base: ChunkView,
    after: ChunkView,
    edits: Seq<BlockEdit>,
    priors: Seq<BlockId>,
    n: int,
    c: ChunkCoord,
) -> bool {
    &&& after.wf()
    &&& after.coord == base.coord
    &&& after.blocks == batch_blocks(base.blocks, edits, n, c)
    &&& after.subchunk_visible_mask == base.subchunk_visible_mask
    &&& after.subchunk_dirty_mask == base.subchunk_dirty_mask | batch_marks(edits, priors, n, c)
    &&& after.revision == advanced_revision(base.revision, changes_in(edits, priors, n, c))
}

/// The chunk after the edits stored so far, before the batch marks its dirty bits.
spec fn stored_chunk(
    base: ChunkView,
    after: ChunkView,
    edits: Seq<BlockEdit>,
    priors: Seq<BlockId>,
    n: int,
    c: ChunkCoord,
) -> bool {
    &&& after.wf()
    &&& after.coord == base.coord
    &&& after.blocks == batch_blocks(base.blocks, edits, n, c)
    &&& after.subchunk_visible_mask == base.subchunk_visible_mask
    &&& after.subchunk_dirty_mask == base.subchunk_dirty_mask | edited_bits(edits, priors, n, c)
    &&& after.revision == advanced_revision(base.revision, changes_in(edits, priors, n, c))
}

/// A batch of `edits` turned the chunks `start` into `after`: `bases` holds the chunk each
/// edited chunk started from (the loaded one, or a freshly generated one for a chunk the
/// batch loads), `priors` the block each edit found, and every chunk of `after` is its
/// base with the batch applied.
pub open spec fn batch_outcome(
    start: Map<ChunkCoord, ChunkView>,
    seed: u64,
    edits: Seq<BlockEdit>,
    bases: Map<ChunkCoord, ChunkView>,
    priors: Seq<BlockId>,
    after: Map<ChunkCoord, ChunkView>,
) -> bool {
    &&& priors.len() == edits.len()
    &&& forall|c: ChunkCoord| #[trigger] bases.contains_key(c) <==> (start.contains_key(c)
        || edits_touch_chunk(edits, edits.len() as int, c))
    &&& forall|c: ChunkCoord| #[trigger] start.contains_key(c) ==> bases[c] == start[c]
    &&& forall|c: ChunkCoord|
        #[trigger] bases.contains_key(c) && !start.contains_key(c) ==> is_generated_chunk(seed, c, bases[c])
    &&& priors_consistent(bases, edits, priors, edits.len() as int)
    &&& forall|c: ChunkCoord| #[trigger] after.contains_key(c) ==> batch_chunk(
        bases[c],
        after[c],
        edits,
        priors,
        edits.len() as int,
        c,
    )
}

proof fn lemma_batch_prefix(edits: Seq<BlockEdit>, p1: Seq<BlockId>, p2: Seq<BlockId>, n: int, c: ChunkCoord)
    requires
        0 <= n <= p1.len(),
        n <= p2.len(),
        forall|j: int| 0 <= j < n ==> p1[j] == p2[j],
    ensures
        count_changed(edits, p1, n) == count_changed(edits, p2, n),
        changes_in(edits, p1, n, c) == changes_in(edits, p2, n, c),
        batch_marks(edits, p1, n, c) == batch_marks(edits, p2, n, c),
        edited_bits(edits, p1, n, c) == edited_bits(edits, p2, n, c),
    decreases n,
{
    if n > 0 {
        lemma_batch_prefix(edits, p1, p2, n - 1, c);
    }
}

/// A chunk that no edit touches keeps its blocks, revision and stored bits.
proof fn lemma_batch_untouched(blocks: Seq<BlockId>, edits: Seq<BlockEdit>, priors: Seq<BlockId>, n: int, c: ChunkCoord)
    requires
        0 <= n <= edits.len(),
        !edits_touch_chunk(edits, n, c),
    ensures
        batch_blocks(blocks, edits, n, c) == blocks,
        changes_in(edits, priors, n, c) == 0,
        edited_bits(edits, priors, n, c) == 0u8,
    decreases n,
{
    if n > 0 {
        if edits_touch_chunk(edits, n - 1, c) {
            let k = choose|k: int| 0 <= k < n - 1 && #[trigger] chunk_of(edits[k].pos) == c;
            assert(edits_touch_chunk(edits, n, c));
        }
        if chunk_of(edits[n - 1].pos) == c {
            assert(edits_touch_chunk(edits, n, c));
        }
        lemma_batch_untouched(blocks, edits, priors, n - 1, c);
    }
}

/// The dirty marks of a batch include the bits its stores set.
proof fn lemma_batch_marks_cover_edits(edits: Seq<BlockEdit>, priors: Seq<BlockId>, n: int, c: ChunkCoord)
    requires
        0 <= n <= edits.len(),
        n <= priors.len(),
    ensures
        batch_marks(edits, priors, n, c) | edited_bits(edits, priors, n, c) == batch_marks(
            edits,
            priors,
            n,
            c,
        ),
    decreases n,
{
    if n <= 0 {
        assert(0u8 | 0u8 == 0u8) by (bit_vector);
    } else {
        lemma_batch_marks_cover_edits(edits, priors, n - 1, c);
        let e = edits[n - 1];
        let lx = e.pos.x as int % 32;
        let ly = e.pos.y as int % 32;
        let lz = e.pos.z as int % 32;
        let bm = batch_marks(edits, priors, n - 1, c);
        let eb = edited_bits(edits, priors, n - 1, c);
        let m = edit_marks(e, c);
        if priors[n - 1] != e.block {
            if chunk_of(e.pos) == c {
                let own = own_marks(lx, ly, lz);
                let nbr = neighbor_marks(chunk_of(e.pos), lx, ly, lz, c);
                let s = bit_of(subchunk_of(lx, ly, lz));
                lemma_own_marks_cover_edit(lx, ly, lz);
                assert(m == own | nbr);
                assert((bm | (own | nbr)) | (eb | s) == bm | (own | nbr)) by (bit_vector)
                    requires
                        bm | eb == bm,
                        own | s == own,
                ;
            } else {
                assert((bm | m) | eb == bm | m) by (bit_vector)
                    requires
                        bm | eb == bm,
                ;
            }
        }
    }
}

/// The chunks stored so far after one more edit of a batch.
proof fn lemma_batch_step(
    before: Map<ChunkCoord, ChunkView>,
    after: Map<ChunkCoord, ChunkView>,
    bases: Map<ChunkCoord, ChunkView>,
    nb: Map<ChunkCoord, ChunkView>,
    edits: Seq<BlockEdit>,
    priors: Seq<BlockId>,
    i: int,
    seed: u64,
    e: BlockEdit,
    base: ChunkView,
    changed: bool,
)
    requires
        0 <= i < edits.len(),
        priors.len() == i,
        e == edits[i],
        chunks_wf(before),
        forall|c: ChunkCoord| #[trigger] before.contains_key(c) ==> bases.contains_key(c) && stored_chunk(
            bases[c],
            before[c],
            edits,
            priors,
            i,
            c,
        ),
        !before.contains_key(chunk_of(e.pos)) ==> !edits_touch_chunk(edits, i, chunk_of(e.pos)),
        after.dom() == before.dom().insert(chunk_of(e.pos)),
        forall|c: ChunkCoord| #[trigger] before.contains_key(c) && c != chunk_of(e.pos) ==> after[c]
            == before[c],
        edit_base(before, seed, chunk_of(e.pos), base),
        changed <==> base.block(e.pos.x as int % 32, e.pos.y as int % 32, e.pos.z as int % 32)
            != e.block,
        !changed ==> after[chunk_of(e.pos)] == base,
        changed ==> edited(
            base,
            after[chunk_of(e.pos)],
            e.pos.x as int % 32,
            e.pos.y as int % 32,
            e.pos.z as int % 32,
            e.block,
            bit_of(subchunk_of(e.pos.x as int % 32, e.pos.y as int % 32, e.pos.z as int % 32)),
        ),
        nb == (if before.contains_key(chunk_of(e.pos)) {
            bases
        } else {
            bases.insert(chunk_of(e.pos), base)
        }),
    ensures
        forall|c: ChunkCoord| #[trigger] after.contains_key(c) ==> nb.contains_key(c) && stored_chunk(
            nb[c],
            after[c],
            edits,
            priors.push(base.block(e.pos.x as int % 32, e.pos.y as int % 32, e.pos.z as int % 32)),
            i + 1,
            c,
        ),
{
    let cc = chunk_of(e.pos);
    let lx = e.pos.x as int % 32;
    let ly = e.pos.y as int % 32;
    let lz = e.pos.z as int % 32;
    let np = priors.push(base.block(lx, ly, lz));
    let s = bit_of(subchunk_of(lx, ly, lz));
    assert(np[i] == base.block(lx, ly, lz));
    assert forall|c: ChunkCoord| #[trigger] after.contains_key(c) implies nb.contains_key(c)
        && stored_chunk(nb[c], after[c], edits, np, i + 1, c) by {
        lemma_batch_prefix(edits, priors, np, i, c);
        if c != cc {
            assert(before.contains_key(c));
            assert(nb[c] == bases[c]);
        } else {
            let b0 = nb[cc];
            let eb = edited_bits(edits, priors, i, cc);
            let k = changes_in(edits, priors, i, cc);
            if before.contains_key(cc) {
                assert(base == before[cc]);
                assert(b0 == bases[cc]);
            } else {
                lemma_batch_untouched(base.blocks, edits, priors, i, cc);
                assert(b0 == base);
                lemma_or_assoc(base.subchunk_dirty_mask, 0u8, 0u8);
            }
            assert(base.blocks == batch_blocks(b0.blocks, edits, i, cc));
            assert(base.subchunk_dirty_mask == b0.subchunk_dirty_mask | eb);
            assert(base.revision == advanced_revision(b0.revision, k));
            if changed {
                lemma_or_assoc(b0.subchunk_dirty_mask, eb, s);
                assert(changes_in(edits, np, i + 1, cc) == k + 1);
                assert(advanced_revision(b0.revision, k + 1) == next_revision(advanced_revision(b0.revision, k)));
            } else {
                assert(base.blocks.update(local_index(lx, ly, lz), e.block) =~= base.blocks);
            }
        }
    }
}

/// Growing the map of chunk bases by a chunk no earlier edit touched keeps the record of
/// prior blocks.
proof fn lemma_priors_grow(
    bases: Map<ChunkCoord, ChunkView>,
    cc: ChunkCoord,
    base: ChunkView,
    edits: Seq<BlockEdit>,
    priors: Seq<BlockId>,
    n: int,
)
    requires
        0 <= n <= edits.len(),
        !edits_touch_chunk(edits, n, cc),
        priors_consistent(bases, edits, priors, n),
    ensures
        priors_consistent(bases.insert(cc, base), edits, priors, n),
{
    reveal(priors_consistent);
    let nb = bases.insert(cc, base);
    assert forall|j: int|
        0 <= j < n && !edits_target(edits, j, edits[j].pos) && nb.contains_key(chunk_of(edits[j].pos))
            implies #[trigger] priors[j] == world_block(nb, edits[j].pos) by {
        if chunk_of(edits[j].pos) == cc {
            assert(edits_touch_chunk(edits, n, cc));
        }
    }
}

/// Extends the record of prior blocks by the edit applied to `before`.
proof fn lemma_priors_step(
    nb: Map<ChunkCoord, ChunkView>,
    before: Map<ChunkCoord, ChunkView>,
    edits: Seq<BlockEdit>,
    priors: Seq<BlockId>,
    i: int,
    seed: u64,
    base: ChunkView,
)
    requires
        0 <= i < edits.len(),
        priors.len() == i,
        priors_consistent(nb, edits, priors, i),
        forall|c: ChunkCoord| #[trigger] edits_touch_chunk(edits, i, c) ==> before.contains_key(c),
        forall|j: int|
            0 <= j < i && is_last_edit(edits, j, i) ==> world_block(before, #[trigger] edits[j].pos)
                == edits[j].block,
        forall|p: BlockPos|
            !edits_target(edits, i, p) && before.contains_key(chunk_of(p)) ==> #[trigger] world_block(
                before,
                p,
            ) == world_block(nb, p),
        edit_base(before, seed, chunk_of(edits[i].pos), base),
        nb.contains_key(chunk_of(edits[i].pos)),
        !before.contains_key(chunk_of(edits[i].pos)) ==> nb[chunk_of(edits[i].pos)] == base,
    ensures
        ({
            let e = edits[i];
            let np = priors.push(base.block(e.pos.x as int % 32, e.pos.y as int % 32, e.pos.z as int % 32));
            &&& priors_consistent(nb, edits, np, i + 1)
            &&& count_changed(edits, np, i) == count_changed(edits, priors, i)
        }),
{
    reveal(priors_consistent);
    let e = edits[i];
    let np = priors.push(base.block(e.pos.x as int % 32, e.pos.y as int % 32, e.pos.z as int % 32));
    assert forall|j: int, k: int|
        #![trigger np[j], edits[k]]
        0 <= k < j < i + 1 && edits[k].pos == edits[j].pos && is_last_edit(edits, k, j) implies np[j]
            == edits[k].block by {
        if j < i {
            assert(np[j] == priors[j]);
        } else {
            assert(edits_touch_chunk(edits, i, chunk_of(edits[k].pos)));
            assert(before.contains_key(chunk_of(edits[k].pos)));
            assert(world_block(before, edits[k].pos) == edits[k].block);
        }
    }
    assert forall|j: int|
        0 <= j < i + 1 && !edits_target(edits, j, edits[j].pos) && nb.contains_key(
            chunk_of(edits[j].pos),
        ) implies #[trigger] np[j] == world_block(nb, edits[j].pos) by {
        if j < i {
            assert(np[j] == priors[j]);
        } else if before.contains_key(chunk_of(e.pos)) {
            assert(world_block(before, e.pos) == world_block(nb, e.pos));
        }
    }
    lemma_batch_prefix(edits, priors, np, i, chunk_of(e.pos));
}

/// What one stored edit does to the blocks of the world.
proof fn lemma_edit_effect(
    before: Map<ChunkCoord, ChunkView>,
    after: Map<ChunkCoord, ChunkView>,
    seed: u64,
    e: BlockEdit,
    base: ChunkView,
    changed: bool,
    bits: u8,
)
    requires
        chunks_wf(before),
        after.dom() == before.dom().insert(chunk_of(e.pos)),
        forall|c: ChunkCoord| #[trigger] before.contains_key(c) && c != chunk_of(e.pos) ==> after[c]
            == before[c],
        edit_base(before, seed, chunk_of(e.pos), base),
        changed <==> base.block(e.pos.x as int % 32, e.pos.y as int % 32, e.pos.z as int % 32)
            != e.block,
        !changed ==> after[chunk_of(e.pos)] == base,
        changed ==> edited(
            base,
            after[chunk_of(e.pos)],
            e.pos.x as int % 32,
            e.pos.y as int % 32,
            e.pos.z as int % 32,
            e.block,
            bits,
        ),
    ensures
        world_block(after, e.pos) == e.block,
        forall|p: BlockPos| p != e.pos && before.contains_key(chunk_of(p)) ==> #[trigger] world_block(
            after,
            p,
        ) == world_block(before, p),
        forall|p: BlockPos| p != e.pos && chunk_of(p) == chunk_of(e.pos) ==> #[trigger] world_block(
            after,
            p,
        ) == base.block(p.x as int % 32, p.y as int % 32, p.z as int % 32),
{
    let cc = chunk_of(e.pos);
    let lx = e.pos.x as int % 32;
    let ly = e.pos.y as int % 32;
    let lz = e.pos.z as int % 32;
    lemma_local_index(lx, ly, lz);
    assert(base.wf());
    assert forall|p: BlockPos| p != e.pos && chunk_of(p) == cc implies #[trigger] world_block(after, p)
        == base.block(p.x as int % 32, p.y as int % 32, p.z as int % 32) by {
        let qx = p.x as int % 32;
        let qy = p.y as int % 32;
        let qz = p.z as int % 32;
        lemma_local_index(qx, qy, qz);
        assert(local_index(qx, qy, qz) != local_index(lx, ly, lz));
    }
    assert forall|p: BlockPos| p != e.pos && before.contains_key(chunk_of(p)) implies #[trigger] world_block(
        after,
        p,
    ) == world_block(before, p) by {
        if chunk_of(p) == cc {
            let qx = p.x as int % 32;
            let qy = p.y as int % 32;
            let qz = p.z as int % 32;
            lemma_local_index(qx, qy, qz);
            assert(local_index(qx, qy, qz) != local_index(lx, ly, lz));
        }
    }
}
/// Whether `c` lies in the box of half-widths `h` (x and z) and `v` (y) around `center`.
pub open spec fn in_load_box(center: ChunkCoord, h: int, v: int, c: ChunkCoord) -> bool {
    &&& center.x - h <= c.x <= center.x + h
    &&& center.y - v <= c.y <= center.y + v
    &&& center.z - h <= c.z <= center.z + h
}

/// Every chunk of the load box around `center` has block coordinates that fit in an `i32`.
pub open spec fn load_box_in_world_range(center: ChunkCoord, h: int, v: int) -> bool {
    &&& -0x400_0000 <= center.x - h && center.x + h < 0x400_0000
    &&& -0x400_0000 <= center.y - v && center.y + v < 0x400_0000
    &&& -0x400_0000 <= center.z - h && center.z + h < 0x400_0000
}

/// Number of chunks in the load box.
pub open spec fn load_box_volume(h: int, v: int) -> int {
    (2 * h + 1) * (2 * h + 1) * (2 * v + 1)
}

/// The chunks of the box of half-widths `h` (x and z) and `v` (y) around `center`.
pub open spec fn load_box_set(center: ChunkCoord, h: int, v: int) -> Set<ChunkCoord> {
    Set::new(|c: ChunkCoord| in_load_box(center, h, v, c))
}

/// A radius clamped below at zero.
pub open spec fn clamp_radius(r: i32) -> int {
    if r < 0 {
        0
    } else {
        r as int
    }
}

/// The mask with the low `n` subchunk bits set.
pub open spec fn low_bits(n: int) -> u8 {
    if n <= 0 {
        0u8
    } else if n >= 8 {
        0xFFu8
    } else {
        ((1u16 << (n as u16)) - 1) as u8
    }
}

pub proof fn lemma_low_bits_step(d: u8, i: u8)
    requires
        i < 8,
    ensures
        (d | low_bits(i as int)) | (1u8 << i) == d | low_bits(i + 1),
{
    if i == 0 {
        assert((d | 0u8) | (1u8 << 0u8) == d | (((1u16 << 1u16) - 1) as u8)) by (bit_vector);
    } else if i == 7 {
        assert((d | (((1u16 << 7u16) - 1) as u8)) | (1u8 << 7u8) == d | 0xFFu8) by (bit_vector);
    } else {
        let j = i as u16;
        assert((d | (((1u16 << j) - 1) as u8)) | (1u8 << i) == d | (((1u16 << (j + 1)) - 1) as u8))
            by (bit_vector)
            requires
                0 < i < 7,
                j == i,
        ;
    }
}

/// The loaded voxel world: chunks by coordinate, generated on demand from the seed
/// and the terrain samples of `T`.
pub struct VoxelWorld<T: TerrainSource> {
    chunks: HashMap<u128, Chunk>,
    generator: WorldGenerator,
    terrain: T,
}

impl<T: TerrainSource> View for VoxelWorld<T> {
    type V = Map<ChunkCoord, ChunkView>;

    closed spec fn view(&self) -> Map<ChunkCoord, ChunkView> {
        Map::new(
            |c: ChunkCoord| self.chunks@.contains_key(coord_key(c)),
            |c: ChunkCoord| self.chunks@[coord_key(c)]@,
        )
    }
}

impl<T: TerrainSource> VoxelWorld<T> {
    /// Every stored chunk is consistent and stored under the key of its coordinate.
    pub closed spec fn wf(&self) -> bool {
        forall|k: u128|
            #[trigger] self.chunks@.contains_key(k) ==> self.chunks@[k].wf() && k == coord_key(
                self.chunks@[k]@.coord,
            )
    }

    pub closed spec fn seed_spec(&self) -> u64 {
        self.generator.seed
    }

    pub closed spec fn terrain_spec(&self) -> T {
        self.terrain
    }

    /// Number of loaded chunks.
    pub closed spec fn loaded_count(&self) -> nat {
        self.chunks@.len()
    }

    /// The view of a well-formed world holds consistent chunks under their coordinates.
    pub proof fn lemma_view_wf(&self)
        requires
            self.wf(),
        ensures
            chunks_wf(self@),
    {
        assert forall|c: ChunkCoord| #[trigger] self@.contains_key(c) implies self@[c].wf()
            && self@[c].coord == c by {
            let k = coord_key(c);
            lemma_coord_key_injective(c, self.chunks@[k]@.coord);
        }
    }

    /// The loaded chunks of a well-formed world are finitely many, and their number is
    /// the number of loaded coordinates.
    pub proof fn lemma_loaded_count(&self)
        requires
            self.wf(),
        ensures
            self@.dom().finite(),
            self.loaded_count() == self@.dom().len(),
    {
        let keys = self.chunks@.dom();
        let f = |k: u128| self.chunks@[k]@.coord;
        assert(keys.finite());
        assert forall|a: u128, b: u128| keys.contains(a) && keys.contains(b) && #[trigger] f(a) == #[trigger] f(
            b,
        ) implies a == b by {}
        assert(injective_on(f, keys));
        assert forall|c: ChunkCoord| #[trigger] keys.map(f).contains(c) <==> self@.dom().contains(c) by {
            if self@.dom().contains(c) {
                let k = coord_key(c);
                lemma_coord_key_injective(c, self.chunks@[k]@.coord);
                assert(keys.contains(k) && f(k) == c);
            }
            if keys.map(f).contains(c) {
                let k = choose|k: u128| keys.contains(k) && c == f(k);
                assert(k == coord_key(c));
            }
        }
        assert(keys.map(f) =~= self@.dom());
        lemma_map_size(keys, self@.dom(), f);
    }

    proof fn lemma_insert_view(&self, c: Chunk, k: u128, m: Map<u128, Chunk>)
        requires
            k == coord_key(c@.coord),
            m == self.chunks@.insert(k, c),
        ensures
            Map::new(
                |d: ChunkCoord| m.contains_key(coord_key(d)),
                |d: ChunkCoord| m[coord_key(d)]@,
            ) == self@.insert(c@.coord, c@),
    {
        let nm = Map::new(
            |d: ChunkCoord| m.contains_key(coord_key(d)),
            |d: ChunkCoord| m[coord_key(d)]@,
        );
        assert forall|d: ChunkCoord| nm.contains_key(d) <==> self@.insert(c@.coord, c@).contains_key(
            d,
        ) by {
            lemma_coord_key_injective(d, c@.coord);
        }
        assert forall|d: ChunkCoord| nm.contains_key(d) implies nm[d] == self@.insert(
            c@.coord,
            c@,
        )[d] by {
            lemma_coord_key_injective(d, c@.coord);
        }
        assert(nm =~= self@.insert(c@.coord, c@));
    }

    proof fn lemma_remove_view(&self, cc: ChunkCoord, k: u128, m: Map<u128, Chunk>)
        requires
            k == coord_key(cc),
            m == self.chunks@.remove(k),
        ensures
            Map::new(
                |d: ChunkCoord| m.contains_key(coord_key(d)),
                |d: ChunkCoord| m[coord_key(d)]@,
            ) == self@.remove(cc),
    {
        let nm = Map::new(
            |d: ChunkCoord| m.contains_key(coord_key(d)),
            |d: ChunkCoord| m[coord_key(d)]@,
        );
        assert forall|d: ChunkCoord| nm.contains_key(d) <==> self@.remove(cc).contains_key(d) by {
            lemma_coord_key_injective(d, cc);
        }
        assert(nm =~= self@.remove(cc));
    }

    /// An empty world with the given seed and terrain source.
    pub fn new(seed: u64, terrain: T) -> (w: Self)
        ensures
            w.wf(),
            w@ == Map::<ChunkCoord, ChunkView>::empty(),
            w.loaded_count() == 0,
            w.seed_spec() == seed,
            w.terrain_spec() == terrain,
    {
        let w = VoxelWorld {
            chunks: HashMap::new(),
            generator: WorldGenerator::new(seed),
            terrain,
        };
        assert(w@ =~= Map::<ChunkCoord, ChunkView>::empty());
        w
    }

    /// The world seed.
    pub fn seed(&self) -> (s: u64)
        ensures
            s == self.seed_spec(),
    {
        self.generator.seed
    }

    /// The terrain source.
    pub fn terrain(&self) -> (t: &T)
        ensures
            *t == self.terrain_spec(),
    {
        &self.terrain
    }

    /// The freshly generated chunk at `coord` for this world's seed.
    pub fn generate_chunk(&self, coord: ChunkCoord) -> (c: Chunk)
        requires
            chunk_in_world_range(coord),
        ensures
            c.wf(),
            is_generated_chunk(self.seed_spec(), coord, c@),
    {
        let samples = self.terrain.sample_chunk(self.generator.seed, coord);
        self.generator.generate_chunk(coord, &samples)
    }

    /// Number of loaded chunks.
    pub fn chunk_count(&self) -> (n: usize)
        ensures
            n == self.loaded_count(),
    {
        self.chunks.len()
    }

    /// Whether the chunk at `coord` is loaded.
    pub fn contains_chunk(&self, coord: ChunkCoord) -> (b: bool)
        ensures
            b == self@.contains_key(coord),
    {
        self.chunks.contains_key(&chunk_key(coord))
    }

    /// The loaded chunk at `coord`.
    pub fn get_chunk(&self, coord: ChunkCoord) -> (r: Option<&Chunk>)
        requires
            self.wf(),
        ensures
            r is Some <==> self@.contains_key(coord),
            r matches Some(c) ==> c@ == self@[coord] && c.wf(),
    {
        let k = chunk_key(coord);
        self.chunks.get(&k)
    }

    /// Adds `chunk` under its coordinate unless a chunk is already loaded there.
    pub fn insert_chunk(&mut self, chunk: Chunk) -> (inserted: bool)
        requires
            old(self).wf(),
            chunk.wf(),
        ensures
            final(self).wf(),
            inserted == !old(self)@.contains_key(chunk@.coord),
            inserted ==> final(self)@ == old(self)@.insert(chunk@.coord, chunk@),
            inserted ==> final(self).loaded_count() == old(self).loaded_count() + 1,
            !inserted ==> final(self)@ == old(self)@ && final(self).loaded_count() == old(
                self,
            ).loaded_count(),
            final(self).seed_spec() == old(self).seed_spec(),
            final(self).terrain_spec() == old(self).terrain_spec(),
    {
        let k = chunk_key(chunk.coord());
        if self.chunks.contains_key(&k) {
            return false;
        }
        proof {
            self.lemma_insert_view(chunk, k, self.chunks@.insert(k, chunk));
        }
        self.chunks.insert(k, chunk);
        true
    }

    /// Removes and returns the chunk at `coord`.
    pub fn remove_chunk(&mut self, coord: ChunkCoord) -> (r: Option<Chunk>)
        requires
            old(self).wf(),
        ensures
            final(self).wf(),
            final(self)@ == old(self)@.remove(coord),
            r is Some <==> old(self)@.contains_key(coord),
            r matches Some(c) ==> c@ == old(self)@[coord] && c.wf(),
            r is Some ==> final(self).loaded_count() + 1 == old(self).loaded_count(),
            r is None ==> final(self).loaded_count() == old(self).loaded_count(),
            final(self).seed_spec() == old(self).seed_spec(),
            final(self).terrain_spec() == old(self).terrain_spec(),
    {
        let k = chunk_key(coord);
        proof {
            self.lemma_remove_view(coord, k, self.chunks@.remove(k));
        }
        self.chunks.remove(&k)
    }

    /// Generates and adds the chunk at `coord` unless it is loaded.
    pub fn load_chunk(&mut self, coord: ChunkCoord) -> (loaded: bool)
        requires
            old(self).wf(),
            chunk_in_world_range(coord),
        ensures
            final(self).wf(),
            loaded == !old(self)@.contains_key(coord),
            loaded ==> final(self)@ == old(self)@.insert(coord, final(self)@[coord])
                && is_generated_chunk(old(self).seed_spec(), coord, final(self)@[coord])
                && final(self).loaded_count() == old(self).loaded_count() + 1,
            !loaded ==> final(self)@ == old(self)@ && final(self).loaded_count() == old(
                self,
            ).loaded_count(),
            final(self).seed_spec() == old(self).seed_spec(),
            final(self).terrain_spec() == old(self).terrain_spec(),
    {
        if self.contains_chunk(coord) {
            return false;
        }
        let chunk = self.generate_chunk(coord);
        self.insert_chunk(chunk)
    }

    /// The block at `pos`; air where no chunk is loaded.
    pub fn get_block(&self, pos: BlockPos) -> (b: BlockId)
        requires
            self.wf(),
        ensures
            b == world_block(self@, pos),
    {
        let chunk_coord = world_to_chunk_coord(pos.x, pos.y, pos.z);
        let (lx, ly, lz) = world_to_local_block(pos.x, pos.y, pos.z);
        match self.get_chunk(chunk_coord) {
            Some(chunk) => chunk.get_block(lx, ly, lz),
            None => AIR_BLOCK,
        }
    }

    /// Records the visible-subchunk mask of a loaded chunk. Returns whether the chunk
    /// is loaded.
    pub fn set_chunk_visible_mask(&mut self, coord: ChunkCoord, visible_mask: u8) -> (found: bool)
        requires
            old(self).wf(),
        ensures
            final(self).wf(),
            found == old(self)@.contains_key(coord),
            found ==> final(self)@ == old(self)@.insert(
                coord,
                ChunkView { subchunk_visible_mask: visible_mask, ..old(self)@[coord] },
            ),
            !found ==> final(self)@ == old(self)@,
            final(self).loaded_count() == old(self).loaded_count(),
            final(self).seed_spec() == old(self).seed_spec(),
            final(self).terrain_spec() == old(self).terrain_spec(),
    {
        let ghost before = self@;
        proof {
            self.lemma_view_wf();
        }
        match self.remove_chunk(coord) {
            Some(mut chunk) => {
                chunk.set_subchunk_visible_mask(visible_mask);
                let ghost mid = self@;
                self.insert_chunk(chunk);
                assert(self@ =~= before.insert(
                    coord,
                    ChunkView { subchunk_visible_mask: visible_mask, ..before[coord] },
                ));
                true
            },
            None => false,
        }
    }
}

impl<T: TerrainSource> VoxelWorld<T> {
    /// Marks subchunk `sub` of the loaded chunk at `n` dirty when `apply` holds.
    fn mark_chunk_border_dirty(&mut self, apply: bool, n: ChunkCoord, lx: usize, ly: usize, lz: usize)
        requires
            old(self).wf(),
            lx < 32,
            ly < 32,
            lz < 32,
        ensures
            final(self).wf(),
            final(self)@.dom() == old(self)@.dom(),
            forall|c: ChunkCoord| #[trigger] old(self)@.contains_key(c) ==> final(self)@[c] == marked(
                old(self)@[c],
                cond_bit(apply && c == n, subchunk_of(lx as int, ly as int, lz as int)),
            ),
            final(self).loaded_count() == old(self).loaded_count(),
            final(self).seed_spec() == old(self).seed_spec(),
            final(self).terrain_spec() == old(self).terrain_spec(),
    {
        let ghost before = self@;
        proof {
            self.lemma_view_wf();
            assert forall|c: ChunkCoord| #[trigger] before.contains_key(c) implies marked(before[c], 0u8) == before[c] by {
                lemma_or_assoc(before[c].subchunk_dirty_mask, 0u8, 0u8);
            }
        }
        if !apply {
            return;
        }
        match self.remove_chunk(n) {
            Some(mut neighbor) => {
                let sub = subchunk_index(lx, ly, lz);
                neighbor.mark_subchunk_dirty(sub);
                self.insert_chunk(neighbor);
                assert(self@ =~= before.insert(n, marked(before[n], bit_of(sub as int))));
            },
            None => {},
        }
    }

    /// Marks the subchunks of the edited chunk that see the edit at local `(lx, ly, lz)`.
    fn mark_adjacent_subchunks_dirty(&mut self, chunk_coord: ChunkCoord, lx: usize, ly: usize, lz: usize)
        requires
            old(self).wf(),
            lx < 32,
            ly < 32,
            lz < 32,
        ensures
            final(self).wf(),
            final(self)@.dom() == old(self)@.dom(),
            forall|c: ChunkCoord| #[trigger] old(self)@.contains_key(c) ==> final(self)@[c] == (if c
                == chunk_coord {
                marked(old(self)@[c], own_marks(lx as int, ly as int, lz as int))
            } else {
                old(self)@[c]
            }),
            final(self).loaded_count() == old(self).loaded_count(),
            final(self).seed_spec() == old(self).seed_spec(),
            final(self).terrain_spec() == old(self).terrain_spec(),
    {
        let ghost before = self@;
        proof {
            self.lemma_view_wf();
        }
        let Some(mut chunk) = self.remove_chunk(chunk_coord) else {
            return;
        };
        let ghost d0 = chunk@.subchunk_dirty_mask;
        let current_sub = subchunk_index(lx, ly, lz);
        let ghost t1 = cond_bit(lx == 15, subchunk_of(16, ly as int, lz as int));
        let ghost t2 = cond_bit(lx == 16, subchunk_of(15, ly as int, lz as int));
        let ghost t3 = cond_bit(ly == 15, subchunk_of(lx as int, 16, lz as int));
        let ghost t4 = cond_bit(ly == 16, subchunk_of(lx as int, 15, lz as int));
        let ghost t5 = cond_bit(lz == 15, subchunk_of(lx as int, ly as int, 16));
        let ghost t6 = cond_bit(lz == 16, subchunk_of(lx as int, ly as int, 15));
        let ghost t7 = bit_of(current_sub as int);

        if lx == SUBCHUNK_SIZE - 1 && lx + 1 < CHUNK_SIZE {
            chunk.mark_subchunk_dirty(subchunk_index(lx + 1, ly, lz));
        }
        proof { lemma_or_assoc(d0, 0, 0); }
        assert(chunk@.subchunk_dirty_mask == d0 | t1);
        let ghost d1 = chunk@.subchunk_dirty_mask;
        if lx == SUBCHUNK_SIZE && lx > 0 {
            chunk.mark_subchunk_dirty(subchunk_index(lx - 1, ly, lz));
        }
        proof { lemma_or_assoc(d1, 0, 0); }
        assert(chunk@.subchunk_dirty_mask == d1 | t2);
        let ghost d2 = chunk@.subchunk_dirty_mask;
        if ly == SUBCHUNK_SIZE - 1 && ly + 1 < CHUNK_SIZE {
            chunk.mark_subchunk_dirty(subchunk_index(lx, ly + 1, lz));
        }
        proof { lemma_or_assoc(d2, 0, 0); }
        assert(chunk@.subchunk_dirty_mask == d2 | t3);
        let ghost d3 = chunk@.subchunk_dirty_mask;
        if ly == SUBCHUNK_SIZE && ly > 0 {
            chunk.mark_subchunk_dirty(subchunk_index(lx, ly - 1, lz));
        }
        proof { lemma_or_assoc(d3, 0, 0); }
        assert(chunk@.subchunk_dirty_mask == d3 | t4);
        let ghost d4 = chunk@.subchunk_dirty_mask;
        if lz == SUBCHUNK_SIZE - 1 && lz + 1 < CHUNK_SIZE {
            chunk.mark_subchunk_dirty(subchunk_index(lx, ly, lz + 1));
        }
        proof { lemma_or_assoc(d4, 0, 0); }
        assert(chunk@.subchunk_dirty_mask == d4 | t5);
        let ghost d5 = chunk@.subchunk_dirty_mask;
        if lz == SUBCHUNK_SIZE && lz > 0 {
            chunk.mark_subchunk_dirty(subchunk_index(lx, ly, lz - 1));
        }
        proof { lemma_or_assoc(d5, 0, 0); }
        assert(chunk@.subchunk_dirty_mask == d5 | t6);
        chunk.mark_subchunk_dirty(current_sub);
        proof {
            assert(((((((d0 | t1) | t2) | t3) | t4) | t5) | t6) | t7 == d0 | ((((((t1 | t2) | t3) | t4)
                | t5) | t6) | t7)) by (bit_vector);
            assert(own_marks(lx as int, ly as int, lz as int) == ((((((t1 | t2) | t3) | t4) | t5) | t6)
                | t7));
        }
        self.insert_chunk(chunk);
        assert(self@ =~= before.insert(
            chunk_coord,
            marked(before[chunk_coord], own_marks(lx as int, ly as int, lz as int)),
        ));
    }

    /// Marks the loaded neighbor chunks that see the edit at local `(lx, ly, lz)`.
    fn mark_adjacent_chunks_dirty(&mut self, chunk_coord: ChunkCoord, lx: usize, ly: usize, lz: usize)
        requires
            old(self).wf(),
            lx < 32,
            ly < 32,
            lz < 32,
            chunk_in_world_range(chunk_coord),
        ensures
            final(self).wf(),
            final(self)@.dom() == old(self)@.dom(),
            forall|c: ChunkCoord| #[trigger] old(self)@.contains_key(c) ==> final(self)@[c] == marked(
                old(self)@[c],
                neighbor_marks(chunk_coord, lx as int, ly as int, lz as int, c),
            ),
            final(self).loaded_count() == old(self).loaded_count(),
            final(self).seed_spec() == old(self).seed_spec(),
            final(self).terrain_spec() == old(self).terrain_spec(),
    {
        let ghost s0 = self@;
        self.mark_chunk_border_dirty(lx == 0, chunk_coord.offset(-1, 0, 0), CHUNK_SIZE - 1, ly, lz);
        let ghost s1 = self@;
        self.mark_chunk_border_dirty(lx == CHUNK_SIZE - 1, chunk_coord.offset(1, 0, 0), 0, ly, lz);
        let ghost s2 = self@;
        self.mark_chunk_border_dirty(ly == 0, chunk_coord.offset(0, -1, 0), lx, CHUNK_SIZE - 1, lz);
        let ghost s3 = self@;
        self.mark_chunk_border_dirty(ly == CHUNK_SIZE - 1, chunk_coord.offset(0, 1, 0), lx, 0, lz);
        let ghost s4 = self@;
        self.mark_chunk_border_dirty(lz == 0, chunk_coord.offset(0, 0, -1), lx, ly, CHUNK_SIZE - 1);
        let ghost s5 = self@;
        self.mark_chunk_border_dirty(lz == CHUNK_SIZE - 1, chunk_coord.offset(0, 0, 1), lx, ly, 0);
        proof {
            assert forall|c: ChunkCoord| #[trigger] s0.contains_key(c) implies self@[c] == marked(
                s0[c],
                neighbor_marks(chunk_coord, lx as int, ly as int, lz as int, c),
            ) by {
                let d = s0[c].subchunk_dirty_mask;
                let a1 = cond_bit(lx == 0 && c == offset_of(chunk_coord, -1, 0, 0), subchunk_of(31, ly as int, lz as int));
                let a2 = cond_bit(lx == 31 && c == offset_of(chunk_coord, 1, 0, 0), subchunk_of(0, ly as int, lz as int));
                let a3 = cond_bit(ly == 0 && c == offset_of(chunk_coord, 0, -1, 0), subchunk_of(lx as int, 31, lz as int));
                let a4 = cond_bit(ly == 31 && c == offset_of(chunk_coord, 0, 1, 0), subchunk_of(lx as int, 0, lz as int));
                let a5 = cond_bit(lz == 0 && c == offset_of(chunk_coord, 0, 0, -1), subchunk_of(lx as int, ly as int, 31));
                let a6 = cond_bit(lz == 31 && c == offset_of(chunk_coord, 0, 0, 1), subchunk_of(lx as int, ly as int, 0));
                assert(s1[c] == marked(s0[c], a1));
                assert(s2[c] == marked(s1[c], a2));
                assert(s3[c] == marked(s2[c], a3));
                assert(s4[c] == marked(s3[c], a4));
                assert(s5[c] == marked(s4[c], a5));
                assert(self@[c] == marked(s5[c], a6));
                assert((((((d | a1) | a2) | a3) | a4) | a5) | a6 == d | (((((a1 | a2) | a3) | a4) | a5)
                    | a6)) by (bit_vector);
            }
        }
    }
}

impl<T: TerrainSource> VoxelWorld<T> {
    /// Loads the chunk of `edit.pos` if needed and stores the block in it. Returns the
    /// changed position when the stored block actually changed.
    fn apply_block_edit(&mut self, edit: BlockEdit) -> (r: (Option<ChangedBlock>, Ghost<ChunkView>))
        requires
            old(self).wf(),
        ensures
            final(self).wf(),
            final(self)@.dom() == old(self)@.dom().insert(chunk_of(edit.pos)),
            forall|c: ChunkCoord| #[trigger] old(self)@.contains_key(c) && c != chunk_of(edit.pos)
                ==> final(self)@[c] == old(self)@[c],
            edit_base(old(self)@, old(self).seed_spec(), chunk_of(edit.pos), r.1@),
            ({
                let base = r.1@;
                let lx = edit.pos.x as int % 32;
                let ly = edit.pos.y as int % 32;
                let lz = edit.pos.z as int % 32;
                &&& (r.0 is Some <==> base.block(lx, ly, lz) != edit.block)
                &&& r.0 is None ==> final(self)@[chunk_of(edit.pos)] == base
                &&& r.0 is Some ==> edited(
                    base,
                    final(self)@[chunk_of(edit.pos)],
                    lx,
                    ly,
                    lz,
                    edit.block,
                    bit_of(subchunk_of(lx, ly, lz)),
                )
            }),
            r.0 matches Some(ch) ==> ch.chunk_coord == chunk_of(edit.pos) && ch.lx == edit.pos.x as int
                % 32 && ch.ly == edit.pos.y as int % 32 && ch.lz == edit.pos.z as int % 32,
            final(self).seed_spec() == old(self).seed_spec(),
            final(self).terrain_spec() == old(self).terrain_spec(),
    {
        let pos = edit.pos;
        let chunk_coord = world_to_chunk_coord(pos.x, pos.y, pos.z);
        let (lx, ly, lz) = world_to_local_block(pos.x, pos.y, pos.z);
        let ghost before = self@;

        self.load_chunk(chunk_coord);
        let ghost loaded = self@;
        let ghost base = loaded[chunk_coord];
        proof {
            self.lemma_view_wf();
            assert(edit_base(before, self.seed_spec(), chunk_coord, base));
        }

        let changed = match self.remove_chunk(chunk_coord) {
            Some(mut chunk) => {
                let changed = chunk.set_block(lx, ly, lz, edit.block);
                self.insert_chunk(chunk);
                changed
            },
            None => false,
        };
        proof {
            lemma_local_index(lx as int, ly as int, lz as int);
            if !changed {
                assert(self@ =~= loaded);
            }
        }

        if changed {
            (Some(ChangedBlock { chunk_coord, lx, ly, lz }), Ghost(base))
        } else {
            (None, Ghost(base))
        }
    }

    /// Marks dirty everything that sees the edit at local `(lx, ly, lz)` of `chunk_coord`.
    fn mark_neighbor_dirty_if_needed(&mut self, chunk_coord: ChunkCoord, lx: usize, ly: usize, lz: usize)
        requires
            old(self).wf(),
            lx < 32,
            ly < 32,
            lz < 32,
            chunk_in_world_range(chunk_coord),
        ensures
            final(self).wf(),
            final(self)@.dom() == old(self)@.dom(),
            forall|c: ChunkCoord| #[trigger] old(self)@.contains_key(c) ==> final(self)@[c] == marked(
                old(self)@[c],
                (if c == chunk_coord {
                    own_marks(lx as int, ly as int, lz as int)
                } else {
                    0u8
                }) | neighbor_marks(chunk_coord, lx as int, ly as int, lz as int, c),
            ),
            final(self).loaded_count() == old(self).loaded_count(),
            final(self).seed_spec() == old(self).seed_spec(),
            final(self).terrain_spec() == old(self).terrain_spec(),
    {
        let ghost s0 = self@;
        self.mark_adjacent_subchunks_dirty(chunk_coord, lx, ly, lz);
        let ghost s1 = self@;
        self.mark_adjacent_chunks_dirty(chunk_coord, lx, ly, lz);
        proof {
            assert forall|c: ChunkCoord| #[trigger] s0.contains_key(c) implies self@[c] == marked(
                s0[c],
                (if c == chunk_coord {
                    own_marks(lx as int, ly as int, lz as int)
                } else {
                    0u8
                }) | neighbor_marks(chunk_coord, lx as int, ly as int, lz as int, c),
            ) by {
                let own = if c == chunk_coord {
                    own_marks(lx as int, ly as int, lz as int)
                } else {
                    0u8
                };
                lemma_or_assoc(s0[c].subchunk_dirty_mask, own, neighbor_marks(chunk_coord, lx as int, ly as int, lz as int, c));
                assert(s1.contains_key(c));
                if c != chunk_coord {
                    assert(s1[c] == s0[c]);
                    assert(s1[c] == marked(s0[c], 0u8));
                }
            }
        }
    }

    /// Stores `block` at `pos`, loading (generating) its chunk if needed. A real change
    /// advances the chunk's revision and marks dirty the edited subchunk, the subchunk
    /// across a subchunk boundary the block touches, and the facing subchunk of each
    /// loaded neighbor chunk across a chunk face the block touches; storing the block
    /// already there changes nothing else.
    pub fn set_block(&mut self, pos: BlockPos, block: BlockId)
        requires
            old(self).wf(),
        ensures
            final(self).wf(),
            world_block(final(self)@, pos) == block,
            final(self)@.dom() == old(self)@.dom().insert(chunk_of(pos)),
            exists|base: ChunkView| #[trigger]
                edit_base(old(self)@, old(self).seed_spec(), chunk_of(pos), base) && {
                    let lx = pos.x as int % 32;
                    let ly = pos.y as int % 32;
                    let lz = pos.z as int % 32;
                    let changed = base.block(lx, ly, lz) != block;
                    &&& !changed ==> final(self)@[chunk_of(pos)] == base
                    &&& changed ==> edited(
                        base,
                        final(self)@[chunk_of(pos)],
                        lx,
                        ly,
                        lz,
                        block,
                        own_marks(lx, ly, lz),
                    )
                    &&& forall|c: ChunkCoord| #[trigger] old(self)@.contains_key(c) && c != chunk_of(pos)
                        ==> final(self)@[c] == (if changed {
                        marked(old(self)@[c], neighbor_marks(chunk_of(pos), lx, ly, lz, c))
                    } else {
                        old(self)@[c]
                    })
                },
            final(self).seed_spec() == old(self).seed_spec(),
            final(self).terrain_spec() == old(self).terrain_spec(),
    {
        let ghost before = self@;
        let ghost cc = chunk_of(pos);
        let ghost lx = pos.x as int % 32;
        let ghost ly = pos.y as int % 32;
        let ghost lz = pos.z as int % 32;
        let (r, Ghost(base)) = self.apply_block_edit(BlockEdit::new(pos, block));
        let ghost mid = self@;
        if let Some(change) = r {
            self.mark_neighbor_dirty_if_needed(change.chunk_coord, change.lx, change.ly, change.lz);
            proof {
                let own = own_marks(lx, ly, lz);
                let s = bit_of(subchunk_of(lx, ly, lz));
                lemma_own_marks_cover_edit(lx, ly, lz);
                lemma_or_absorb(base.subchunk_dirty_mask, s, own);
                lemma_neighbor_marks_self(cc, lx, ly, lz);
                lemma_or_assoc(own, 0u8, 0u8);
                assert(mid.contains_key(cc));
                assert(self@[cc] == marked(mid[cc], own | neighbor_marks(cc, lx, ly, lz, cc)));
                assert(self@[cc] == marked(mid[cc], own));
                assert forall|c: ChunkCoord| #[trigger] before.contains_key(c) && c != cc implies self@[c]
                    == marked(before[c], neighbor_marks(cc, lx, ly, lz, c)) by {
                    lemma_zero_or(neighbor_marks(cc, lx, ly, lz, c));
                }
                lemma_local_index(lx, ly, lz);
            }
        }
        proof {
            lemma_local_index(lx, ly, lz);
            self.lemma_view_wf();
            assert(edit_base(before, self.seed_spec(), cc, base));
        }
    }
}

/// Dirty bits that chunk `c` gets from the recorded changes `s`.
spec fn marks_of_changes(s: Seq<ChangedBlock>, c: ChunkCoord) -> u8
    decreases s.len(),
{
    if s.len() == 0 {
        0u8
    } else {
        let ch = s.last();
        marks_of_changes(s.drop_last(), c) | change_marks(
            ch.chunk_coord,
            ch.lx as int,
            ch.ly as int,
            ch.lz as int,
            c,
        )
    }
}

/// The state after the first `n` edits of a batch have been stored in `m`, starting
/// from `start`: `bases` holds the chunk each loaded chunk started from and `priors` the
/// block each edit found.
#[verifier::opaque]
spec fn batch_progress(
    start: Map<ChunkCoord, ChunkView>,
    seed: u64,
    edits: Seq<BlockEdit>,
    bases: Map<ChunkCoord, ChunkView>,
    priors: Seq<BlockId>,
    n: int,
    m: Map<ChunkCoord, ChunkView>,
) -> bool {
    &&& 0 <= n <= edits.len()
    &&& priors.len() == n
    &&& priors_consistent(bases, edits, priors, n)
    &&& forall|c: ChunkCoord| #[trigger] m.contains_key(c) <==> (start.contains_key(c)
        || edits_touch_chunk(edits, n, c))
    &&& forall|c: ChunkCoord| #[trigger] bases.contains_key(c) <==> m.contains_key(c)
    &&& forall|c: ChunkCoord| #[trigger] start.contains_key(c) ==> bases[c] == start[c]
    &&& forall|c: ChunkCoord|
        #[trigger] bases.contains_key(c) && !start.contains_key(c) ==> is_generated_chunk(seed, c, bases[c])
    &&& forall|c: ChunkCoord| #[trigger] m.contains_key(c) ==> stored_chunk(bases[c], m[c], edits, priors, n, c)
    &&& forall|j: int|
        0 <= j < n && is_last_edit(edits, j, n) ==> world_block(m, #[trigger] edits[j].pos)
            == edits[j].block
    &&& forall|p: BlockPos|
        !edits_target(edits, n, p) && start.contains_key(chunk_of(p)) ==> #[trigger] world_block(m, p)
            == world_block(start, p)
    &&& forall|p: BlockPos|
        !edits_target(edits, n, p) && m.contains_key(chunk_of(p)) ==> #[trigger] world_block(m, p)
            == world_block(bases, p)
}

/// Nothing stored yet.
proof fn lemma_batch_progress_start(start: Map<ChunkCoord, ChunkView>, seed: u64, edits: Seq<BlockEdit>)
    requires
        chunks_wf(start),
    ensures
        batch_progress(start, seed, edits, start, Seq::empty(), 0, start),
{
    reveal(batch_progress);
    reveal(priors_consistent);
    assert forall|c: ChunkCoord| #[trigger] start.contains_key(c) implies stored_chunk(
        start[c],
        start[c],
        edits,
        Seq::empty(),
        0,
        c,
    ) by {
        lemma_or_assoc(start[c].subchunk_dirty_mask, 0u8, 0u8);
    }
}

/// One more edit stored.
proof fn lemma_batch_progress_step(
    start: Map<ChunkCoord, ChunkView>,
    seed: u64,
    edits: Seq<BlockEdit>,
    bases: Map<ChunkCoord, ChunkView>,
    priors: Seq<BlockId>,
    i: int,
    before: Map<ChunkCoord, ChunkView>,
    after: Map<ChunkCoord, ChunkView>,
    base: ChunkView,
    changed: bool,
) -> (nb: Map<ChunkCoord, ChunkView>)
    requires
        batch_progress(start, seed, edits, bases, priors, i, before),
        i < edits.len(),
        chunks_wf(before),
        after.dom() == before.dom().insert(chunk_of(edits[i].pos)),
        forall|c: ChunkCoord| #[trigger] before.contains_key(c) && c != chunk_of(edits[i].pos) ==> after[c]
            == before[c],
        edit_base(before, seed, chunk_of(edits[i].pos), base),
        changed <==> base.block(
            edits[i].pos.x as int % 32,
            edits[i].pos.y as int % 32,
            edits[i].pos.z as int % 32,
        ) != edits[i].block,
        !changed ==> after[chunk_of(edits[i].pos)] == base,
        changed ==> edited(
            base,
            after[chunk_of(edits[i].pos)],
            edits[i].pos.x as int % 32,
            edits[i].pos.y as int % 32,
            edits[i].pos.z as int % 32,
            edits[i].block,
            bit_of(
                subchunk_of(
                    edits[i].pos.x as int % 32,
                    edits[i].pos.y as int % 32,
                    edits[i].pos.z as int % 32,
                ),
            ),
        ),
    ensures
        ({
            let e = edits[i];
            let np = priors.push(base.block(e.pos.x as int % 32, e.pos.y as int % 32, e.pos.z as int % 32));
            &&& batch_progress(start, seed, edits, nb, np, i + 1, after)
            &&& count_changed(edits, np, i + 1) == count_changed(edits, priors, i) + (if changed {
                1nat
            } else {
                0nat
            })
            &&& forall|c: ChunkCoord| #[trigger] batch_marks(edits, np, i + 1, c) == (if changed {
                batch_marks(edits, priors, i, c) | edit_marks(e, c)
            } else {
                batch_marks(edits, priors, i, c)
            })
        }),
{
    reveal(batch_progress);
    let e = edits[i];
    let cc = chunk_of(e.pos);
    let lx = e.pos.x as int % 32;
    let ly = e.pos.y as int % 32;
    let lz = e.pos.z as int % 32;
    let np = priors.push(base.block(lx, ly, lz));
    let nb = if before.contains_key(cc) {
        bases
    } else {
        bases.insert(cc, base)
    };
    if !before.contains_key(cc) {
        assert(!edits_touch_chunk(edits, i, cc));
        lemma_priors_grow(bases, cc, base, edits, priors, i);
    }
    assert(nb.contains_key(cc));
    assert forall|c: ChunkCoord| #[trigger] edits_touch_chunk(edits, i, c) implies before.contains_key(c) by {}
    assert forall|p: BlockPos|
        !edits_target(edits, i, p) && before.contains_key(chunk_of(p)) implies #[trigger] world_block(
            before,
            p,
        ) == world_block(nb, p) by {
        assert(world_block(before, p) == world_block(bases, p));
    }
    lemma_priors_step(nb, before, edits, priors, i, seed, base);
    lemma_edit_effect(before, after, seed, e, base, changed, bit_of(subchunk_of(lx, ly, lz)));
    lemma_batch_step(before, after, bases, nb, edits, priors, i, seed, e, base, changed);
    assert(np[i] == base.block(lx, ly, lz));
    assert forall|c: ChunkCoord| #[trigger] batch_marks(edits, np, i + 1, c) == (if changed {
        batch_marks(edits, priors, i, c) | edit_marks(e, c)
    } else {
        batch_marks(edits, priors, i, c)
    }) by {
        lemma_batch_prefix(edits, priors, np, i, c);
    }
    assert forall|c: ChunkCoord| #[trigger] after.contains_key(c) <==> (start.contains_key(c)
        || edits_touch_chunk(edits, i + 1, c)) by {
        if c == cc {
            assert(chunk_of(edits[i].pos) == c);
        }
        if edits_touch_chunk(edits, i + 1, c) && !edits_touch_chunk(edits, i, c) {
            let k = choose|k: int| 0 <= k < i + 1 && #[trigger] chunk_of(edits[k].pos) == c;
            assert(k == i);
        }
    }
    assert forall|j: int|
        0 <= j < i + 1 && is_last_edit(edits, j, i + 1) implies world_block(
            after,
            #[trigger] edits[j].pos,
        ) == edits[j].block by {
        if j < i {
            assert(is_last_edit(edits, j, i));
            assert(edits[i].pos != edits[j].pos);
            assert(edits_touch_chunk(edits, i, chunk_of(edits[j].pos)));
            assert(before.contains_key(chunk_of(edits[j].pos)));
        }
    }
    assert forall|p: BlockPos|
        !edits_target(edits, i + 1, p) && start.contains_key(chunk_of(p)) implies #[trigger] world_block(
            after,
            p,
        ) == world_block(start, p) by {
        if edits_target(edits, i, p) {
            let k = choose|k: int| 0 <= k < i && #[trigger] edits[k].pos == p;
            assert(edits_target(edits, i + 1, p));
        }
        assert(edits[i].pos != p);
        assert(before.contains_key(chunk_of(p)));
    }
    assert forall|p: BlockPos|
        !edits_target(edits, i + 1, p) && after.contains_key(chunk_of(p)) implies #[trigger] world_block(
            after,
            p,
        ) == world_block(nb, p) by {
        if edits_target(edits, i, p) {
            let k = choose|k: int| 0 <= k < i && #[trigger] edits[k].pos == p;
            assert(edits_target(edits, i + 1, p));
        }
        assert(edits[i].pos != p);
        if before.contains_key(chunk_of(p)) {
            assert(world_block(before, p) == world_block(bases, p));
        } else {
            assert(chunk_of(p) == cc);
        }
    }
    assert forall|c: ChunkCoord| #[trigger] start.contains_key(c) implies nb[c] == start[c] by {
        assert(before.contains_key(c));
    }
    assert forall|c: ChunkCoord| #[trigger] nb.contains_key(c) && !start.contains_key(c) implies is_generated_chunk(
        seed,
        c,
        nb[c],
    ) by {
        if c == cc && !before.contains_key(cc) {
        } else {
            assert(bases.contains_key(c));
        }
    }
    nb
}

/// The batch after marking: each chunk is its stored state with the batch's dirty marks.
proof fn lemma_batch_finish(
    start: Map<ChunkCoord, ChunkView>,
    seed: u64,
    edits: Seq<BlockEdit>,
    bases: Map<ChunkCoord, ChunkView>,
    priors: Seq<BlockId>,
    applied: Map<ChunkCoord, ChunkView>,
    after: Map<ChunkCoord, ChunkView>,
)
    requires
        batch_progress(start, seed, edits, bases, priors, edits.len() as int, applied),
        chunks_wf(after),
        after.dom() == applied.dom(),
        forall|c: ChunkCoord| #[trigger] applied.contains_key(c) ==> after[c] == marked(
            applied[c],
            batch_marks(edits, priors, edits.len() as int, c),
        ),
    ensures
        batch_outcome(start, seed, edits, bases, priors, after),
        forall|c: ChunkCoord| #[trigger] after.contains_key(c) <==> (start.contains_key(c)
            || edits_touch_chunk(edits, edits.len() as int, c)),
        forall|j: int|
            0 <= j < edits.len() && is_last_edit(edits, j, edits.len() as int) ==> world_block(
                after,
                #[trigger] edits[j].pos,
            ) == edits[j].block,
        forall|p: BlockPos|
            !edits_target(edits, edits.len() as int, p) && start.contains_key(chunk_of(p))
                ==> #[trigger] world_block(after, p) == world_block(start, p),
{
    reveal(batch_progress);
    let n = edits.len() as int;
    assert forall|p: BlockPos| #[trigger] world_block(after, p) == world_block(applied, p) by {}
    assert forall|c: ChunkCoord| #[trigger] after.contains_key(c) implies batch_chunk(
        bases[c],
        after[c],
        edits,
        priors,
        n,
        c,
    ) by {
        assert(applied.contains_key(c));
        lemma_batch_marks_cover_edits(edits, priors, n, c);
        lemma_or_absorb(
            bases[c].subchunk_dirty_mask,
            edited_bits(edits, priors, n, c),
            batch_marks(edits, priors, n, c),
        );
        lemma_or_assoc(
            bases[c].subchunk_dirty_mask,
            edited_bits(edits, priors, n, c),
            batch_marks(edits, priors, n, c),
        );
    }
}

impl<T: TerrainSource> VoxelWorld<T> {
    /// Applies a batch of edits in order, loading (generating) the chunks they touch,
    /// then marks dirty what sees each real change, on every chunk loaded by then. The
    /// last edit of a position decides its block; untouched blocks keep their value; each
    /// change advances its chunk's revision once.
    #[verifier::spinoff_prover]
    #[verifier::rlimit(50)]
    pub fn set_blocks(&mut self, edits: &[BlockEdit]) -> (summary: BlockEditSummary)
        requires
            old(self).wf(),
        ensures
            final(self).wf(),
            summary.requested_edits == edits@.len(),
            summary.changed_blocks <= edits@.len(),
            forall|c: ChunkCoord| #[trigger] final(self)@.contains_key(c) <==> (old(self)@.contains_key(
                c,
            ) || edits_touch_chunk(edits@, edits@.len() as int, c)),
            forall|j: int|
                0 <= j < edits@.len() && is_last_edit(edits@, j, edits@.len() as int) ==> world_block(
                    final(self)@,
                    #[trigger] edits@[j].pos,
                ) == edits@[j].block,
            forall|p: BlockPos|
                !edits_target(edits@, edits@.len() as int, p) && old(self)@.contains_key(chunk_of(p))
                    ==> #[trigger] world_block(final(self)@, p) == world_block(old(self)@, p),
            exists|bases: Map<ChunkCoord, ChunkView>, priors: Seq<BlockId>|
                #[trigger] batch_outcome(old(self)@, old(self).seed_spec(), edits@, bases, priors, final(self)@)
                    && summary.changed_blocks == count_changed(edits@, priors, edits@.len() as int),
            final(self).seed_spec() == old(self).seed_spec(),
            final(self).terrain_spec() == old(self).terrain_spec(),
    {
        let ghost start = self@;
        let ghost seed = self.seed_spec();
        let ghost mut priors: Seq<BlockId> = Seq::empty();
        let ghost mut bases: Map<ChunkCoord, ChunkView> = start;
        proof {
            self.lemma_view_wf();
            lemma_batch_progress_start(start, seed, edits@);
        }
        let mut requested_edits: usize = 0;
        let mut changed_blocks: Vec<ChangedBlock> = Vec::new();
        let mut i: usize = 0;
        while i < edits.len()
            invariant
                self.wf(),
                i <= edits@.len(),
                requested_edits == i,
                changed_blocks@.len() <= i,
                batch_progress(start, seed, edits@, bases, priors, i as int, self@),
                changed_blocks@.len() == count_changed(edits@, priors, i as int),
                forall|k: int|
                    0 <= k < changed_blocks@.len() ==> #[trigger] changed_blocks@[k].lx < 32
                        && changed_blocks@[k].ly < 32 && changed_blocks@[k].lz < 32
                        && chunk_in_world_range(changed_blocks@[k].chunk_coord),
                forall|c: ChunkCoord| #[trigger] marks_of_changes(changed_blocks@, c) == batch_marks(
                    edits@,
                    priors,
                    i as int,
                    c,
                ),
                self.seed_spec() == seed,
                self.terrain_spec() == old(self).terrain_spec(),
            decreases edits@.len() - i,
        {
            let edit = edits[i];
            let ghost before = self@;
            proof {
                self.lemma_view_wf();
            }
            let (change, Ghost(base)) = self.apply_block_edit(edit);
            let ghost old_priors = priors;
            proof {
                assert(edits@[i as int] == edit);
                let nb = lemma_batch_progress_step(
                    start,
                    seed,
                    edits@,
                    bases,
                    old_priors,
                    i as int,
                    before,
                    self@,
                    base,
                    change is Some,
                );
                priors = old_priors.push(
                    base.block(edit.pos.x as int % 32, edit.pos.y as int % 32, edit.pos.z as int % 32),
                );
                bases = nb;
            }
            requested_edits = requested_edits + 1;
            let ghost cb_before = changed_blocks@;
            if let Some(c) = change {
                changed_blocks.push(c);
            }
            proof {
                assert forall|c: ChunkCoord| #[trigger] marks_of_changes(changed_blocks@, c) == batch_marks(
                    edits@,
                    priors,
                    i + 1,
                    c,
                ) by {
                    assert(batch_marks(edits@, priors, i + 1, c) == (if change is Some {
                        batch_marks(edits@, old_priors, i as int, c) | edit_marks(edit, c)
                    } else {
                        batch_marks(edits@, old_priors, i as int, c)
                    }));
                    assert(marks_of_changes(cb_before, c) == batch_marks(edits@, old_priors, i as int, c));
                    if let Some(ch) = change {
                        assert(changed_blocks@.drop_last() =~= cb_before);
                        assert(changed_blocks@.last() == ch);
                        assert(change_marks(ch.chunk_coord, ch.lx as int, ch.ly as int, ch.lz as int, c)
                            == edit_marks(edit, c));
                    } else {
                        assert(changed_blocks@ == cb_before);
                    }
                }
            }
            i = i + 1;
        }

        let ghost applied = self@;
        let mut k: usize = 0;
        proof {
            assert(changed_blocks@.take(0) =~= Seq::<ChangedBlock>::empty());
            assert forall|c: ChunkCoord| #[trigger] applied.contains_key(c) implies self@[c] == marked(
                applied[c],
                marks_of_changes(changed_blocks@.take(0), c),
            ) by {
                lemma_or_assoc(applied[c].subchunk_dirty_mask, 0u8, 0u8);
            }
        }
        while k < changed_blocks.len()
            invariant
                self.wf(),
                0 <= k <= changed_blocks@.len(),
                forall|m: int|
                    0 <= m < changed_blocks@.len() ==> #[trigger] changed_blocks@[m].lx < 32
                        && changed_blocks@[m].ly < 32 && changed_blocks@[m].lz < 32
                        && chunk_in_world_range(changed_blocks@[m].chunk_coord),
                self@.dom() == applied.dom(),
                forall|c: ChunkCoord| #[trigger] applied.contains_key(c) ==> self@[c] == marked(
                    applied[c],
                    marks_of_changes(changed_blocks@.take(k as int), c),
                ),
                self.seed_spec() == old(self).seed_spec(),
                self.terrain_spec() == old(self).terrain_spec(),
            decreases changed_blocks@.len() - k,
        {
            let change = changed_blocks[k];
            let ghost mid = self@;
            self.mark_neighbor_dirty_if_needed(change.chunk_coord, change.lx, change.ly, change.lz);
            proof {
                assert(changed_blocks@.take(k + 1).drop_last() =~= changed_blocks@.take(k as int));
                assert(changed_blocks@.take(k + 1).last() == change);
                assert forall|c: ChunkCoord| #[trigger] applied.contains_key(c) implies self@[c] == marked(
                    applied[c],
                    marks_of_changes(changed_blocks@.take(k + 1), c),
                ) by {
                    lemma_or_assoc(
                        applied[c].subchunk_dirty_mask,
                        marks_of_changes(changed_blocks@.take(k as int), c),
                        change_marks(change.chunk_coord, change.lx as int, change.ly as int, change.lz as int, c),
                    );
                    assert(mid.contains_key(c));
                }
            }
            k = k + 1;
        }
        proof {
            assert(changed_blocks@.take(changed_blocks@.len() as int) =~= changed_blocks@);
            self.lemma_view_wf();
            lemma_batch_finish(start, seed, edits@, bases, priors, applied, self@);
        }

        BlockEditSummary { requested_edits, changed_blocks: changed_blocks.len() }
    }
}

impl<T: TerrainSource> VoxelWorld<T> {
    /// Loads every chunk of the box of half-widths `horizontal_load_radius` (x, z) and
    /// `vertical_load_radius` (y) around `center`, negative radii counting as 0.
    pub fn load_chunks_around_chunk(
        &mut self,
        center: ChunkCoord,
        settings: WorldStreamingSettings,
    ) -> (u: ChunkStreamingUpdate)
        requires
            old(self).wf(),
            load_box_in_world_range(
                center,
                clamp_radius(settings.horizontal_load_radius),
                clamp_radius(settings.vertical_load_radius),
            ),
            load_box_volume(
                clamp_radius(settings.horizontal_load_radius),
                clamp_radius(settings.vertical_load_radius),
            ) <= usize::MAX,
        ensures
            final(self).wf(),
            u.center_chunk == center,
            u.requested_loads == load_box_volume(
                clamp_radius(settings.horizontal_load_radius),
                clamp_radius(settings.vertical_load_radius),
            ),
            u.total_loaded == final(self).loaded_count(),
            u.newly_loaded + old(self).loaded_count() == final(self).loaded_count(),
            forall|c: ChunkCoord| #[trigger] final(self)@.contains_key(c) <==> (old(self)@.contains_key(c)
                || in_load_box(
                center,
                clamp_radius(settings.horizontal_load_radius),
                clamp_radius(settings.vertical_load_radius),
                c,
            )),
            forall|c: ChunkCoord| #[trigger] old(self)@.contains_key(c) ==> final(self)@[c] == old(
                self,
            )@[c],
            forall|c: ChunkCoord|
                #[trigger] final(self)@.contains_key(c) && !old(self)@.contains_key(c)
                    ==> is_generated_chunk(old(self).seed_spec(), c, final(self)@[c]),
            (forall|c: ChunkCoord|
                in_load_box(
                    center,
                    clamp_radius(settings.horizontal_load_radius),
                    clamp_radius(settings.vertical_load_radius),
                    c,
                ) ==> #[trigger] old(self)@.contains_key(c)) ==> u.newly_loaded == 0,
            final(self)@.dom().finite(),
            u.total_loaded == final(self)@.dom().len(),
            u.newly_loaded == load_box_set(
                center,
                clamp_radius(settings.horizontal_load_radius),
                clamp_radius(settings.vertical_load_radius),
            ).difference(old(self)@.dom()).len(),
            (forall|c: ChunkCoord|
                in_load_box(
                    center,
                    clamp_radius(settings.horizontal_load_radius),
                    clamp_radius(settings.vertical_load_radius),
                    c,
                ) ==> !#[trigger] old(self)@.contains_key(c)) ==> u.newly_loaded == u.requested_loads,
            final(self).seed_spec() == old(self).seed_spec(),
            final(self).terrain_spec() == old(self).terrain_spec(),
    {
        let horizontal_radius: i32 = if settings.horizontal_load_radius < 0 {
            0
        } else {
            settings.horizontal_load_radius
        };
        let vertical_radius: i32 = if settings.vertical_load_radius < 0 {
            0
        } else {
            settings.vertical_load_radius
        };
        let ghost h = horizontal_radius as int;
        let ghost v = vertical_radius as int;
        let ghost w = 2 * h + 1;
        let ghost start = self@;
        let ghost start_count = self.loaded_count();
        let ghost seed = self.seed_spec();
        proof {
            self.lemma_loaded_count();
        }

        let mut requested_loads: usize = 0;
        let mut newly_loaded: usize = 0;

        let mut dy: i32 = -vertical_radius;
        proof {
            assert((dy + v) * (w * w) == 0) by (nonlinear_arith)
                requires
                    dy + v == 0,
            ;
        }
        while dy <= vertical_radius
            invariant
                self.wf(),
                h == horizontal_radius,
                v == vertical_radius,
                w == 2 * h + 1,
                0 <= h,
                0 <= v,
                load_box_in_world_range(center, h, v),
                load_box_volume(h, v) <= usize::MAX,
                -v <= dy <= v + 1,
                requested_loads == (dy + v) * (w * w),
                newly_loaded + start_count == self.loaded_count(),
                (forall|c: ChunkCoord| in_load_box(center, h, v, c) ==> #[trigger] start.contains_key(c))
                    ==> newly_loaded == 0,
                newly_loaded <= requested_loads,
                forall|c: ChunkCoord| #[trigger] self@.contains_key(c) ==> start.contains_key(c)
                    || (in_load_box(center, h, v, c) && c.y < center.y + dy),
                (forall|c: ChunkCoord| in_load_box(center, h, v, c) ==> !#[trigger] start.contains_key(c)) ==> newly_loaded == requested_loads,
                forall|c: ChunkCoord|
                    in_load_box(center, h, v, c) && c.y < center.y + dy ==> #[trigger] self@.contains_key(c),
                forall|c: ChunkCoord| #[trigger] start.contains_key(c) ==> self@.contains_key(c) && self@[c]
                    == start[c],
                forall|c: ChunkCoord|
                    #[trigger] self@.contains_key(c) && !start.contains_key(c) ==> is_generated_chunk(
                        seed,
                        c,
                        self@[c],
                    ),
                self.seed_spec() == seed,
                self.terrain_spec() == old(self).terrain_spec(),
            decreases v + 1 - dy,
        {
            proof {
                assert((dy + v) * (w * w) + w * w <= load_box_volume(h, v)) by (nonlinear_arith)
                    requires
                        dy <= v,
                        -v <= dy,
                        w == 2 * h + 1,
                        0 <= h,
                        load_box_volume(h, v) == w * w * (2 * v + 1),
                ;
            }
            let mut dz: i32 = -horizontal_radius;
            proof {
                assert((dz + h) * w == 0) by (nonlinear_arith)
                    requires
                        dz + h == 0,
                ;
            }
            while dz <= horizontal_radius
                invariant
                    self.wf(),
                    h == horizontal_radius,
                    v == vertical_radius,
                    w == 2 * h + 1,
                    0 <= h,
                    0 <= v,
                    load_box_in_world_range(center, h, v),
                    -v <= dy <= v,
                    -h <= dz <= h + 1,
                    (dy + v) * (w * w) + w * w <= load_box_volume(h, v),
                    load_box_volume(h, v) <= usize::MAX,
                    requested_loads == (dy + v) * (w * w) + (dz + h) * w,
                    newly_loaded + start_count == self.loaded_count(),
                    (forall|c: ChunkCoord| in_load_box(center, h, v, c) ==> #[trigger] start.contains_key(c))
                        ==> newly_loaded == 0,
                    newly_loaded <= requested_loads,
                    forall|c: ChunkCoord| #[trigger] self@.contains_key(c) ==> start.contains_key(c)
                        || (in_load_box(center, h, v, c) && (c.y < center.y + dy || (c.y == center.y + dy
                        && c.z < center.z + dz))),
                    (forall|c: ChunkCoord| in_load_box(center, h, v, c) ==> !#[trigger] start.contains_key(c)) ==> newly_loaded == requested_loads,
                    forall|c: ChunkCoord|
                        in_load_box(center, h, v, c) && (c.y < center.y + dy || (c.y == center.y + dy
                            && c.z < center.z + dz)) ==> #[trigger] self@.contains_key(c),
                    forall|c: ChunkCoord| #[trigger] start.contains_key(c) ==> self@.contains_key(c)
                        && self@[c] == start[c],
                    forall|c: ChunkCoord|
                        #[trigger] self@.contains_key(c) && !start.contains_key(c) ==> is_generated_chunk(
                            seed,
                            c,
                            self@[c],
                        ),
                    self.seed_spec() == seed,
                    self.terrain_spec() == old(self).terrain_spec(),
                decreases h + 1 - dz,
            {
                proof {
                    assert((dz + h) * w + w <= w * w) by (nonlinear_arith)
                        requires
                            dz <= h,
                            -h <= dz,
                            w == 2 * h + 1,
                    ;
                }
                let mut dx: i32 = -horizontal_radius;
                while dx <= horizontal_radius
                    invariant
                        self.wf(),
                        h == horizontal_radius,
                        v == vertical_radius,
                        w == 2 * h + 1,
                        0 <= h,
                        0 <= v,
                        load_box_in_world_range(center, h, v),
                        -v <= dy <= v,
                        -h <= dz <= h,
                        -h <= dx <= h + 1,
                        (dy + v) * (w * w) + w * w <= load_box_volume(h, v),
                        (dz + h) * w + w <= w * w,
                        load_box_volume(h, v) <= usize::MAX,
                        requested_loads == (dy + v) * (w * w) + (dz + h) * w + (dx + h),
                        newly_loaded + start_count == self.loaded_count(),
                        (forall|c: ChunkCoord| in_load_box(center, h, v, c) ==> #[trigger] start.contains_key(c))
                            ==> newly_loaded == 0,
                        newly_loaded <= requested_loads,
                        forall|c: ChunkCoord| #[trigger] self@.contains_key(c) ==> start.contains_key(c)
                            || (in_load_box(center, h, v, c) && (c.y < center.y + dy || (c.y == center.y
                            + dy && c.z < center.z + dz) || (c.y == center.y + dy && c.z == center.z + dz
                            && c.x < center.x + dx))),
                        (forall|c: ChunkCoord| in_load_box(center, h, v, c) ==> !#[trigger] start.contains_key(c)) ==> newly_loaded == requested_loads,
                        forall|c: ChunkCoord|
                            in_load_box(center, h, v, c) && (c.y < center.y + dy || (c.y == center.y
                                + dy && c.z < center.z + dz) || (c.y == center.y + dy && c.z
                                == center.z + dz && c.x < center.x + dx)) ==> #[trigger] self@.contains_key(c),
                        forall|c: ChunkCoord| #[trigger] start.contains_key(c) ==> self@.contains_key(c)
                            && self@[c] == start[c],
                        forall|c: ChunkCoord|
                            #[trigger] self@.contains_key(c) && !start.contains_key(c)
                                ==> is_generated_chunk(seed, c, self@[c]),
                        self.seed_spec() == seed,
                        self.terrain_spec() == old(self).terrain_spec(),
                    decreases h + 1 - dx,
                {
                    requested_loads = requested_loads + 1;
                    let target = center.offset(dx, dy, dz);
                    proof {
                        assert(in_load_box(center, h, v, target));
                        if forall|c: ChunkCoord| in_load_box(center, h, v, c) ==> #[trigger] start.contains_key(c) {
                            assert(start.contains_key(target));
                            assert(self@.contains_key(target));
                        }
                    }
                    if self.load_chunk(target) {
                        newly_loaded = newly_loaded + 1;
                    }
                    dx = dx + 1;
                }
                proof {
                    assert((dz + h) * w + w == (dz + 1 + h) * w) by (nonlinear_arith);
                }
                dz = dz + 1;
            }
            proof {
                assert((dy + v) * (w * w) + (2 * h + 1) * w == (dy + 1 + v) * (w * w)) by (nonlinear_arith)
                    requires
                        w == 2 * h + 1,
                ;
            }
            dy = dy + 1;
        }
        proof {
            assert(requested_loads == load_box_volume(h, v)) by (nonlinear_arith)
                requires
                    requested_loads == (v + 1 + v) * (w * w),
                    w == 2 * h + 1,
            ;
        }

        proof {
            self.lemma_loaded_count();
            let d = load_box_set(center, h, v).difference(start.dom());
            assert(self@.dom() =~= start.dom() + d);
            assert(d.subset_of(self@.dom()));
            vstd::set_lib::lemma_set_subset_finite(self@.dom(), d);
            assert(start.dom().disjoint(d));
            lemma_set_disjoint_lens(start.dom(), d);
        }
        ChunkStreamingUpdate {
            center_chunk: center,
            requested_loads,
            newly_loaded,
            total_loaded: self.chunk_count(),
        }
    }
}

impl<T: TerrainSource> VoxelWorld<T> {
    /// Loads the cube of chunks of radius `radius` around the origin chunk.
    pub fn load_chunks_around_origin(&mut self, radius: i32) -> (u: ChunkStreamingUpdate)
        requires
            old(self).wf(),
            radius < i32::MAX,
            load_box_in_world_range(
                ChunkCoord { x: 0, y: 0, z: 0 },
                clamp_radius(radius),
                clamp_radius(radius),
            ),
            load_box_volume(clamp_radius(radius), clamp_radius(radius)) <= usize::MAX,
        ensures
            final(self).wf(),
            u.center_chunk == (ChunkCoord { x: 0, y: 0, z: 0 }),
            u.requested_loads == load_box_volume(clamp_radius(radius), clamp_radius(radius)),
            u.total_loaded == final(self).loaded_count(),
            u.newly_loaded + old(self).loaded_count() == final(self).loaded_count(),
            forall|c: ChunkCoord| #[trigger] final(self)@.contains_key(c) <==> (old(self)@.contains_key(c)
                || in_load_box(
                ChunkCoord { x: 0, y: 0, z: 0 },
                clamp_radius(radius),
                clamp_radius(radius),
                c,
            )),
            forall|c: ChunkCoord| #[trigger] old(self)@.contains_key(c) ==> final(self)@[c] == old(
                self,
            )@[c],
            forall|c: ChunkCoord|
                #[trigger] final(self)@.contains_key(c) && !old(self)@.contains_key(c)
                    ==> is_generated_chunk(old(self).seed_spec(), c, final(self)@[c]),
            (forall|c: ChunkCoord|
                in_load_box(
                    ChunkCoord { x: 0, y: 0, z: 0 },
                    clamp_radius(radius),
                    clamp_radius(radius),
                    c,
                ) ==> #[trigger] old(self)@.contains_key(c)) ==> u.newly_loaded == 0,
            final(self)@.dom().finite(),
            u.total_loaded == final(self)@.dom().len(),
            u.newly_loaded == load_box_set(
                ChunkCoord { x: 0, y: 0, z: 0 },
                clamp_radius(radius),
                clamp_radius(radius),
            ).difference(old(self)@.dom()).len(),
            (forall|c: ChunkCoord|
                in_load_box(
                    ChunkCoord { x: 0, y: 0, z: 0 },
                    clamp_radius(radius),
                    clamp_radius(radius),
                    c,
                ) ==> !#[trigger] old(self)@.contains_key(c)) ==> u.newly_loaded == u.requested_loads,
            final(self).seed_spec() == old(self).seed_spec(),
            final(self).terrain_spec() == old(self).terrain_spec(),
    {
        self.load_chunks_around_chunk(
            ChunkCoord::new(0, 0, 0),
            WorldStreamingSettings::new(radius, radius, radius, radius, radius, radius + 1),
        )
    }

    /// Loads the chunks around the chunk that holds block `center`.
    pub fn load_chunks_around_block(
        &mut self,
        center: BlockPos,
        settings: WorldStreamingSettings,
    ) -> (u: ChunkStreamingUpdate)
        requires
            old(self).wf(),
            load_box_in_world_range(
                chunk_of(center),
                clamp_radius(settings.horizontal_load_radius),
                clamp_radius(settings.vertical_load_radius),
            ),
            load_box_volume(
                clamp_radius(settings.horizontal_load_radius),
                clamp_radius(settings.vertical_load_radius),
            ) <= usize::MAX,
        ensures
            final(self).wf(),
            u.center_chunk == chunk_of(center),
            u.requested_loads == load_box_volume(
                clamp_radius(settings.horizontal_load_radius),
                clamp_radius(settings.vertical_load_radius),
            ),
            u.total_loaded == final(self).loaded_count(),
            u.newly_loaded + old(self).loaded_count() == final(self).loaded_count(),
            forall|c: ChunkCoord| #[trigger] final(self)@.contains_key(c) <==> (old(self)@.contains_key(c)
                || in_load_box(
                chunk_of(center),
                clamp_radius(settings.horizontal_load_radius),
                clamp_radius(settings.vertical_load_radius),
                c,
            )),
            forall|c: ChunkCoord| #[trigger] old(self)@.contains_key(c) ==> final(self)@[c] == old(
                self,
            )@[c],
            forall|c: ChunkCoord|
                #[trigger] final(self)@.contains_key(c) && !old(self)@.contains_key(c)
                    ==> is_generated_chunk(old(self).seed_spec(), c, final(self)@[c]),
            (forall|c: ChunkCoord|
                in_load_box(
                    chunk_of(center),
                    clamp_radius(settings.horizontal_load_radius),
                    clamp_radius(settings.vertical_load_radius),
                    c,
                ) ==> #[trigger] old(self)@.contains_key(c)) ==> u.newly_loaded == 0,
            final(self)@.dom().finite(),
            u.total_loaded == final(self)@.dom().len(),
            u.newly_loaded == load_box_set(
                chunk_of(center),
                clamp_radius(settings.horizontal_load_radius),
                clamp_radius(settings.vertical_load_radius),
            ).difference(old(self)@.dom()).len(),
            (forall|c: ChunkCoord|
                in_load_box(
                    chunk_of(center),
                    clamp_radius(settings.horizontal_load_radius),
                    clamp_radius(settings.vertical_load_radius),
                    c,
                ) ==> !#[trigger] old(self)@.contains_key(c)) ==> u.newly_loaded == u.requested_loads,
            final(self).seed_spec() == old(self).seed_spec(),
            final(self).terrain_spec() == old(self).terrain_spec(),
    {
        let center_chunk = world_to_chunk_coord(center.x, center.y, center.z);
        self.load_chunks_around_chunk(center_chunk, settings)
    }

    /// The loaded chunk at `coord`, to be changed in place; the world then holds the
    /// changed chunk there, and stays consistent when the chunk stays consistent.
    #[verifier::spinoff_prover]
    #[verifier::rlimit(30)]
    pub fn get_chunk_mut(&mut self, coord: ChunkCoord) -> (r: Option<&mut Chunk>)
        requires
            old(self).wf(),
        ensures
            r is Some <==> old(self)@.contains_key(coord),
            r is None ==> final(self)@ == old(self)@ && final(self).wf(),
            r matches Some(c) ==> c@ == old(self)@[coord] && c.wf() && final(self)@ == old(
                self,
            )@.insert(coord, final(c)@) && (final(c).wf() && final(c)@.coord == coord
                ==> final(self).wf()),
            final(self).seed_spec() == old(self).seed_spec(),
            final(self).terrain_spec() == old(self).terrain_spec(),
    {
        let k = chunk_key(coord);
        match self.chunks.entry(k) {
            Entry::Occupied(o) => Some(o.into_mut()),
            Entry::Vacant(_) => None,
        }
    }

    /// The coordinates of the loaded chunks, each once, in an order the hash map
    /// chooses.
    fn loaded_coords_unordered(&self) -> (coords: Vec<ChunkCoord>)
        requires
            self.wf(),
        ensures
            coords@.no_duplicates(),
            forall|c: ChunkCoord| coords@.contains(c) <==> self@.contains_key(c),
    {
        let mut found: Vec<ChunkCoord> = Vec::new();
        for k in it: self.chunks.keys()
            invariant
                self.wf(),
                it.seq() == vstd::std_specs::hash::spec_keys_iter(&self.chunks).remaining(),
                found@.len() == it.index(),
                forall|a: int|
                    0 <= a < it.index() ==> coord_key(#[trigger] found@[a]) == *it.seq()[a]
                        && self@.contains_key(found@[a]),
        {
            let chunk = self.chunks.get(k).unwrap();
            let c = chunk.coord();
            proof {
                lemma_coord_key_injective(c, c);
            }
            found.push(c);
        }
        proof {
            let keys = vstd::std_specs::hash::spec_keys_iter(&self.chunks).remaining();
            assert(keys.unref().to_set() == self.chunks@.dom());
            assert(keys.no_duplicates());
            assert forall|a: int, b: int| 0 <= a < found@.len() && 0 <= b < found@.len() && a != b implies found@[a] != found@[b] by {
                assert(coord_key(found@[a]) == *keys[a]);
                assert(coord_key(found@[b]) == *keys[b]);
            }
            assert forall|c: ChunkCoord| found@.contains(c) <==> self@.contains_key(c) by {
                if self@.contains_key(c) {
                    let k = coord_key(c);
                    assert(keys.unref().to_set().contains(k));
                    assert(keys.unref().contains(k));
                    let a = choose|a: int| 0 <= a < keys.unref().len() && keys.unref()[a] == k;
                    assert(*keys[a] == k);
                    lemma_coord_key_injective(found@[a], c);
                    assert(found@[a] == c);
                }
            }
        }
        found
    }

    /// The coordinates of the loaded chunks, in `y`, `z`, `x` order.
    pub fn loaded_chunk_coords(&self) -> (coords: Vec<ChunkCoord>)
        requires
            self.wf(),
        ensures
            forall|c: ChunkCoord| coords@.contains(c) <==> self@.contains_key(c),
            forall|a: int, b: int|
                0 <= a < b < coords@.len() ==> priority_lt(
                    yzx_priority(#[trigger] coords@[a]),
                    yzx_priority(#[trigger] coords@[b]),
                ),
    {
        let found = self.loaded_coords_unordered();
        sort_coords_yzx(found.as_slice())
    }

    /// Marks every subchunk of the loaded chunk at `coord` dirty. Returns whether the
    /// chunk is loaded.
    pub fn mark_all_subchunks_dirty(&mut self, coord: ChunkCoord) -> (found: bool)
        requires
            old(self).wf(),
        ensures
            final(self).wf(),
            found == old(self)@.contains_key(coord),
            found ==> final(self)@ == old(self)@.insert(coord, marked(old(self)@[coord], 0xFFu8)),
            !found ==> final(self)@ == old(self)@,
            final(self).loaded_count() == old(self).loaded_count(),
            final(self).seed_spec() == old(self).seed_spec(),
            final(self).terrain_spec() == old(self).terrain_spec(),
    {
        let ghost before = self@;
        proof {
            self.lemma_view_wf();
        }
        let Some(mut chunk) = self.remove_chunk(coord) else {
            return false;
        };
        let ghost d0 = chunk@.subchunk_dirty_mask;
        proof {
            lemma_or_assoc(d0, 0u8, 0u8);
        }
        let mut subchunk: usize = 0;
        while subchunk < SUBCHUNK_COUNT
            invariant
                0 <= subchunk <= 8,
                chunk.wf(),
                chunk@ == marked(before[coord], low_bits(subchunk as int)),
            decreases 8 - subchunk,
        {
            let ghost d = chunk@.subchunk_dirty_mask;
            chunk.mark_subchunk_dirty(subchunk);
            proof {
                lemma_low_bits_step(before[coord].subchunk_dirty_mask, subchunk as u8);
            }
            subchunk = subchunk + 1;
        }
        self.insert_chunk(chunk);
        assert(self@ =~= before.insert(coord, marked(before[coord], 0xFFu8)));
        true
    }

    /// Clears the dirty mask of the loaded chunk at `coord`. Returns whether the chunk
    /// is loaded.
    pub fn clear_chunk_dirty(&mut self, coord: ChunkCoord) -> (found: bool)
        requires
            old(self).wf(),
        ensures
            final(self).wf(),
            found == old(self)@.contains_key(coord),
            found ==> final(self)@ == old(self)@.insert(
                coord,
                ChunkView { subchunk_dirty_mask: 0, ..old(self)@[coord] },
            ),
            !found ==> final(self)@ == old(self)@,
            final(self).loaded_count() == old(self).loaded_count(),
            final(self).seed_spec() == old(self).seed_spec(),
            final(self).terrain_spec() == old(self).terrain_spec(),
    {
        let ghost before = self@;
        proof {
            self.lemma_view_wf();
        }
        let Some(mut chunk) = self.remove_chunk(coord) else {
            return false;
        };
        chunk.clear_dirty();
        self.insert_chunk(chunk);
        assert(self@ =~= before.insert(coord, ChunkView { subchunk_dirty_mask: 0, ..before[coord] }));
        true
    }
}

} // verus!
