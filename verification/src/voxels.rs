use vstd::prelude::*;

use crate::coords::ChunkCoord;

verus! {

/// Identifier of a block type.
pub type BlockId = u16;

pub const AIR_BLOCK: BlockId = 0;
pub const DIRT_BLOCK: BlockId = 1;
pub const GRASS_BLOCK: BlockId = 2;
pub const STONE_BLOCK: BlockId = 3;
pub const COAL_ORE_BLOCK: BlockId = 4;
pub const IRON_ORE_BLOCK: BlockId = 5;

pub const CHUNK_SIZE: usize = 32;
pub const CHUNK_AREA: usize = 1024;
pub const CHUNK_VOLUME: usize = 32768;

pub const SUBCHUNK_SIZE: usize = 16;
pub const SUBCHUNK_VOLUME: usize = 4096;
pub const SUBCHUNK_COUNT: usize = 8;

/// Flat index of the local block `(x, y, z)`: x fastest, then z, then y.
pub open spec fn local_index(x: int, y: int, z: int) -> int {
    x + z * 32 + y * 1024
}

/// Whether `(x, y, z)` addresses a block inside a chunk.
pub open spec fn in_chunk(x: int, y: int, z: int) -> bool {
    0 <= x < 32 && 0 <= y < 32 && 0 <= z < 32
}

/// The x component of a flat block index.
pub open spec fn index_x(i: int) -> int {
    i % 32
}

/// The z component of a flat block index.
pub open spec fn index_z(i: int) -> int {
    (i / 32) % 32
}

/// The y component of a flat block index.
pub open spec fn index_y(i: int) -> int {
    i / 1024
}

/// The subchunk (octant of 16^3 blocks) that holds a local position.
pub open spec fn subchunk_of(x: int, y: int, z: int) -> int {
    (if x >= 16 { 1int } else { 0int }) + (if y >= 16 { 2int } else { 0int }) + (if z >= 16 {
        4int
    } else {
        0int
    })
}

/// The subchunk that holds the block with a flat index.
pub open spec fn index_subchunk(i: int) -> int {
    subchunk_of(index_x(i), index_y(i), index_z(i))
}

/// Whether bit `bit` of a subchunk mask is set.
pub open spec fn mask_has(mask: u8, bit: int) -> bool {
    0 <= bit < 8 && (mask >> (bit as u8)) & 1u8 == 1u8
}

/// The number of non-air blocks among the first `n` entries of `blocks`.
pub open spec fn count_solid(blocks: Seq<BlockId>, n: int) -> nat
    decreases n,
{
    if n <= 0 {
        0
    } else {
        count_solid(blocks, n - 1) + (if blocks[n - 1] != AIR_BLOCK { 1nat } else { 0nat })
    }
}

/// The number of non-air blocks of subchunk `sub` among the first `n` entries of `blocks`.
pub open spec fn count_solid_in(blocks: Seq<BlockId>, sub: int, n: int) -> nat
    decreases n,
{
    if n <= 0 {
        0
    } else {
        count_solid_in(blocks, sub, n - 1) + (if blocks[n - 1] != AIR_BLOCK && index_subchunk(
            n - 1,
        ) == sub {
            1nat
        } else {
            0nat
        })
    }
}

/// The abstract state of a chunk.
pub struct ChunkView {
    pub coord: ChunkCoord,
    pub blocks: Seq<BlockId>,
    pub solid_block_count: u32,
    pub subchunk_solid_counts: Seq<u16>,
    pub subchunk_occupancy_mask: u8,
    pub subchunk_dirty_mask: u8,
    pub subchunk_visible_mask: u8,
    pub subchunk_full_solid_mask: u8,
    pub revision: u32,
}

impl ChunkView {
    /// The block stored at local position `(x, y, z)`.
    pub open spec fn block(self, x: int, y: int, z: int) -> BlockId {
        self.blocks[local_index(x, y, z)]
    }

    /// The bookkeeping of a chunk agrees with its blocks: the solid counts are the
    /// numbers of non-air blocks, a subchunk is marked occupied exactly when it holds a
    /// solid block and marked full exactly when all its blocks are solid.
    pub open spec fn wf(self) -> bool {
        &&& self.blocks.len() == CHUNK_VOLUME
        &&& self.subchunk_solid_counts.len() == SUBCHUNK_COUNT
        &&& self.solid_block_count == count_solid(self.blocks, CHUNK_VOLUME as int)
        &&& forall|s: int|
            0 <= s < 8 ==> #[trigger] self.subchunk_solid_counts[s] == count_solid_in(
                self.blocks,
                s,
                CHUNK_VOLUME as int,
            )
        &&& forall|s: int|
            0 <= s < 8 ==> (#[trigger] mask_has(self.subchunk_occupancy_mask, s)
                <==> self.subchunk_solid_counts[s] > 0)
        &&& forall|s: int|
            0 <= s < 8 ==> (#[trigger] mask_has(self.subchunk_full_solid_mask, s)
                <==> self.subchunk_solid_counts[s] == SUBCHUNK_VOLUME)
    }
}

// ---------------------------------------------------------------------------
// Index and coordinate helpers
// ---------------------------------------------------------------------------

/// Flat index of a local block position.
pub fn block_index(x: usize, y: usize, z: usize) -> (i: usize)
    requires
        x + z * 32 + y * 1024 <= usize::MAX,
    ensures
        i == local_index(x as int, y as int, z as int),
{
    x + z * CHUNK_SIZE + y * CHUNK_AREA
}

/// Index of the subchunk (0..8) holding a local block position.
pub fn subchunk_index(x: usize, y: usize, z: usize) -> (s: usize)
    ensures
        s == subchunk_of(x as int, y as int, z as int),
        s < 8,
{
    let sx: usize = if x >= SUBCHUNK_SIZE {
        1
    } else {
        0
    };
    let sy: usize = if y >= SUBCHUNK_SIZE {
        1
    } else {
        0
    };
    let sz: usize = if z >= SUBCHUNK_SIZE {
        1
    } else {
        0
    };

    sx + sy * 2 + sz * 4
}

/// The mask bit of a subchunk.
pub fn subchunk_bit(index: usize) -> (b: u8)
    requires
        index < 8,
    ensures
        b == 1u8 << (index as u8),
        forall|s: int| mask_has(b, s) <==> s == index,
{
    let i = index as u8;
    proof {
        lemma_single_bit(i);
    }
    1u8 << i
}

/// The chunk that contains the world block `(x, y, z)` (Euclidean division by 32).
pub fn world_to_chunk_coord(x: i32, y: i32, z: i32) -> (c: ChunkCoord)
    ensures
        c.x == x as int / 32,
        c.y == y as int / 32,
        c.z == z as int / 32,
{
    ChunkCoord { x: div_chunk(x), y: div_chunk(y), z: div_chunk(z) }
}

/// The position of the world block `(x, y, z)` inside its chunk (Euclidean remainder).
pub fn world_to_local_block(x: i32, y: i32, z: i32) -> (l: (usize, usize, usize))
    ensures
        l.0 == x as int % 32,
        l.1 == y as int % 32,
        l.2 == z as int % 32,
{
    (rem_chunk(x), rem_chunk(y), rem_chunk(z))
}

fn div_chunk(v: i32) -> (q: i32)
    ensures
        q == v as int / 32,
{
    if v >= 0 {
        v / 32
    } else {
        let n: i32 = -(v + 1);
        let q: i32 = n / 32;
        -q - 1
    }
}

fn rem_chunk(v: i32) -> (r: usize)
    ensures
        r == v as int % 32,
        r < 32,
{
    let q = div_chunk(v);
    let r: i64 = v as i64 - (q as i64) * 32;
    r as usize
}

// ---------------------------------------------------------------------------
// Bit lemmas
// ---------------------------------------------------------------------------

pub proof fn lemma_single_bit(i: u8)
    requires
        i < 8,
    ensures
        forall|s: int| mask_has(1u8 << i, s) <==> s == i,
{
    assert forall|s: int| mask_has(1u8 << i, s) <==> s == i by {
        if 0 <= s < 8 {
            let t = s as u8;
            assert(((1u8 << i) >> t) & 1u8 == 1u8 <==> t == i) by (bit_vector)
                requires
                    i < 8,
                    t < 8,
            ;
        }
    }
}

pub proof fn lemma_or_bit(m: u8, b: u8, i: u8)
    requires
        i < 8,
        b == 1u8 << i,
    ensures
        forall|s: int| #[trigger] mask_has(m | b, s) <==> (mask_has(m, s) || s == i),
{
    assert forall|s: int| #[trigger] mask_has(m | b, s) <==> (mask_has(m, s) || s == i) by {
        if 0 <= s < 8 {
            let t = s as u8;
            assert(((m | b) >> t) & 1u8 == 1u8 <==> ((m >> t) & 1u8 == 1u8 || t == i))
                by (bit_vector)
                requires
                    i < 8,
                    t < 8,
                    b == 1u8 << i,
            ;
        }
    }
}

pub proof fn lemma_clear_bit(m: u8, b: u8, i: u8)
    requires
        i < 8,
        b == 1u8 << i,
    ensures
        forall|s: int| #[trigger] mask_has(m & !b, s) <==> (mask_has(m, s) && s != i),
{
    assert forall|s: int| #[trigger] mask_has(m & !b, s) <==> (mask_has(m, s) && s != i) by {
        if 0 <= s < 8 {
            let t = s as u8;
            assert(((m & !b) >> t) & 1u8 == 1u8 <==> ((m >> t) & 1u8 == 1u8 && t != i))
                by (bit_vector)
                requires
                    i < 8,
                    t < 8,
                    b == 1u8 << i,
            ;
        }
    }
}

pub proof fn lemma_zero_mask()
    ensures
        forall|s: int| !mask_has(0u8, s),
{
    assert forall|s: int| !mask_has(0u8, s) by {
        if 0 <= s < 8 {
            let t = s as u8;
            assert((0u8 >> t) & 1u8 != 1u8) by (bit_vector);
        }
    }
}

/// Masks that agree on every subchunk bit are equal.
pub proof fn lemma_mask_ext(a: u8, b: u8)
    requires
        forall|s: int| #[trigger] mask_has(a, s) == mask_has(b, s),
    ensures
        a == b,
{
    assert(mask_has(a, 0) == mask_has(b, 0));
    assert(mask_has(a, 1) == mask_has(b, 1));
    assert(mask_has(a, 2) == mask_has(b, 2));
    assert(mask_has(a, 3) == mask_has(b, 3));
    assert(mask_has(a, 4) == mask_has(b, 4));
    assert(mask_has(a, 5) == mask_has(b, 5));
    assert(mask_has(a, 6) == mask_has(b, 6));
    assert(mask_has(a, 7) == mask_has(b, 7));
    assert(a == b) by (bit_vector)
        requires
            ((a >> 0u8) & 1u8 == 1u8) == ((b >> 0u8) & 1u8 == 1u8),
            ((a >> 1u8) & 1u8 == 1u8) == ((b >> 1u8) & 1u8 == 1u8),
            ((a >> 2u8) & 1u8 == 1u8) == ((b >> 2u8) & 1u8 == 1u8),
            ((a >> 3u8) & 1u8 == 1u8) == ((b >> 3u8) & 1u8 == 1u8),
            ((a >> 4u8) & 1u8 == 1u8) == ((b >> 4u8) & 1u8 == 1u8),
            ((a >> 5u8) & 1u8 == 1u8) == ((b >> 5u8) & 1u8 == 1u8),
            ((a >> 6u8) & 1u8 == 1u8) == ((b >> 6u8) & 1u8 == 1u8),
            ((a >> 7u8) & 1u8 == 1u8) == ((b >> 7u8) & 1u8 == 1u8),
    ;
}

/// A consistent chunk is determined by its coordinate, blocks, dirty and visible masks
/// and revision: the counts and the other masks follow from the blocks.
pub proof fn lemma_view_determined_by_blocks(v1: ChunkView, v2: ChunkView)
    requires
        v1.wf(),
        v2.wf(),
        v1.coord == v2.coord,
        v1.blocks == v2.blocks,
        v1.subchunk_dirty_mask == v2.subchunk_dirty_mask,
        v1.subchunk_visible_mask == v2.subchunk_visible_mask,
        v1.revision == v2.revision,
    ensures
        v1 == v2,
{
    assert(v1.subchunk_solid_counts =~= v2.subchunk_solid_counts);
    assert forall|s: int| #[trigger] mask_has(v1.subchunk_occupancy_mask, s) == mask_has(
        v2.subchunk_occupancy_mask,
        s,
    ) by {
        if 0 <= s < 8 {
            assert(v1.subchunk_solid_counts[s] == v2.subchunk_solid_counts[s]);
        }
    }
    lemma_mask_ext(v1.subchunk_occupancy_mask, v2.subchunk_occupancy_mask);
    assert forall|s: int| #[trigger] mask_has(v1.subchunk_full_solid_mask, s) == mask_has(
        v2.subchunk_full_solid_mask,
        s,
    ) by {
        if 0 <= s < 8 {
            assert(v1.subchunk_solid_counts[s] == v2.subchunk_solid_counts[s]);
        }
    }
    lemma_mask_ext(v1.subchunk_full_solid_mask, v2.subchunk_full_solid_mask);
}

/// A world block coordinate splits into its chunk and its position in the chunk:
/// chunk times 32 plus local position gives it back, for negative coordinates too.
pub proof fn lemma_world_coordinate_split(v: i32)
    ensures
        0 <= v as int % 32 < 32,
        (v as int / 32) * 32 + v as int % 32 == v,
        i32::MIN <= v as int / 32 <= i32::MAX,
{
}

// ---------------------------------------------------------------------------
// Counting lemmas
// ---------------------------------------------------------------------------

pub proof fn lemma_count_bounded(blocks: Seq<BlockId>, sub: int, n: int)
    requires
        0 <= n,
    ensures
        count_solid(blocks, n) <= n,
        count_solid_in(blocks, sub, n) <= count_solid(blocks, n),
    decreases n,
{
    if n > 0 {
        lemma_count_bounded(blocks, sub, n - 1);
    }
}

pub proof fn lemma_count_update(blocks: Seq<BlockId>, i: int, v: BlockId, sub: int, n: int)
    requires
        0 <= i < blocks.len(),
        0 <= n <= blocks.len(),
    ensures
        count_solid(blocks.update(i, v), n) == count_solid(blocks, n) - (if i < n && blocks[i]
            != AIR_BLOCK {
            1int
        } else {
            0int
        }) + (if i < n && v != AIR_BLOCK {
            1int
        } else {
            0int
        }),
        count_solid_in(blocks.update(i, v), sub, n) == count_solid_in(blocks, sub, n) - (if i < n
            && blocks[i] != AIR_BLOCK && index_subchunk(i) == sub {
            1int
        } else {
            0int
        }) + (if i < n && v != AIR_BLOCK && index_subchunk(i) == sub {
            1int
        } else {
            0int
        }),
    decreases n,
{
    if n > 0 {
        lemma_count_update(blocks, i, v, sub, n - 1);
    }
}

pub proof fn lemma_count_all_air(blocks: Seq<BlockId>, sub: int, n: int)
    requires
        0 <= n <= blocks.len(),
        forall|j: int| 0 <= j < n ==> blocks[j] == AIR_BLOCK,
    ensures
        count_solid(blocks, n) == 0,
        count_solid_in(blocks, sub, n) == 0,
    decreases n,
{
    if n > 0 {
        lemma_count_all_air(blocks, sub, n - 1);
    }
}

/// The flat index of a local position decomposes back into that position.
pub proof fn lemma_local_index(x: int, y: int, z: int)
    requires
        in_chunk(x, y, z),
    ensures
        0 <= local_index(x, y, z) < CHUNK_VOLUME,
        index_x(local_index(x, y, z)) == x,
        index_y(local_index(x, y, z)) == y,
        index_z(local_index(x, y, z)) == z,
        index_subchunk(local_index(x, y, z)) == subchunk_of(x, y, z),
{
    let i = local_index(x, y, z);
    assert(i == x + 32 * (z + 32 * y));
    assert(i % 32 == x) by (nonlinear_arith)
        requires
            i == x + 32 * (z + 32 * y),
            0 <= x < 32,
            0 <= z < 32,
            0 <= y < 32,
    ;
    assert(i / 32 == z + 32 * y) by (nonlinear_arith)
        requires
            i == x + 32 * (z + 32 * y),
            0 <= x < 32,
            0 <= z < 32,
            0 <= y < 32,
    ;
    assert((z + 32 * y) % 32 == z) by (nonlinear_arith)
        requires
            0 <= z < 32,
            0 <= y < 32,
    ;
    assert(i / 1024 == y) by (nonlinear_arith)
        requires
            i == x + 32 * (z + 32 * y),
            0 <= x < 32,
            0 <= z < 32,
            0 <= y < 32,
    ;
}


// ---------------------------------------------------------------------------
// Chunk storage
// ---------------------------------------------------------------------------

/// A 32x32x32 block of voxels with per-subchunk occupancy, dirty, visible and
/// full-solid masks and a revision counter that moves on every real edit.
pub struct Chunk {
    coord: ChunkCoord,
    blocks: Vec<BlockId>,
    solid_block_count: u32,
    subchunk_solid_counts: [u16; 8],
    subchunk_occupancy_mask: u8,
    subchunk_dirty_mask: u8,
    subchunk_visible_mask: u8,
    subchunk_full_solid_mask: u8,
    revision: u32,
}

impl View for Chunk {
    type V = ChunkView;

    closed spec fn view(&self) -> ChunkView {
        ChunkView {
            coord: self.coord,
            blocks: self.blocks@,
            solid_block_count: self.solid_block_count,
            subchunk_solid_counts: self.subchunk_solid_counts@,
            subchunk_occupancy_mask: self.subchunk_occupancy_mask,
            subchunk_dirty_mask: self.subchunk_dirty_mask,
            subchunk_visible_mask: self.subchunk_visible_mask,
            subchunk_full_solid_mask: self.subchunk_full_solid_mask,
            revision: self.revision,
        }
    }
}

impl Chunk {
    /// The chunk's bookkeeping agrees with its blocks.
    pub open spec fn wf(&self) -> bool {
        self@.wf()
    }

    /// A chunk of air at `coord`, with clean masks and revision 0.
    pub fn new_empty(coord: ChunkCoord) -> (c: Chunk)
        ensures
            c.wf(),
            c@.coord == coord,
            forall|i: int| 0 <= i < CHUNK_VOLUME ==> #[trigger] c@.blocks[i] == AIR_BLOCK,
            c@.solid_block_count == 0,
            c@.subchunk_occupancy_mask == 0,
            c@.subchunk_full_solid_mask == 0,
            c@.subchunk_dirty_mask == 0,
            c@.subchunk_visible_mask == 0,
            c@.revision == 0,
    {
        let blocks: Vec<BlockId> = vec![AIR_BLOCK; CHUNK_VOLUME];
        let c = Chunk {
            coord,
            blocks,
            solid_block_count: 0,
            subchunk_solid_counts: [0u16; 8],
            subchunk_occupancy_mask: 0,
            subchunk_dirty_mask: 0,
            subchunk_visible_mask: 0,
            subchunk_full_solid_mask: 0,
            revision: 0,
        };
        proof {
            assert forall|i: int| 0 <= i < CHUNK_VOLUME implies c@.blocks[i] == AIR_BLOCK by {}
            assert forall|s: int| 0 <= s < 8 implies #[trigger] c@.subchunk_solid_counts[s]
                == count_solid_in(c@.blocks, s, CHUNK_VOLUME as int) by {
                lemma_count_all_air(c@.blocks, s, CHUNK_VOLUME as int);
            }
            lemma_count_all_air(c@.blocks, 0, CHUNK_VOLUME as int);
            lemma_zero_mask();
        }
        c
    }

    /// A chunk holding exactly `blocks`, with its counts and masks computed from
    /// them, clean dirty and visible masks, and the given revision.
    pub fn from_blocks(coord: ChunkCoord, blocks: Vec<BlockId>, revision: u32) -> (c: Chunk)
        requires
            blocks.len() == CHUNK_VOLUME,
        ensures
            c.wf(),
            c@.coord == coord,
            c@.blocks == blocks@,
            c@.subchunk_dirty_mask == 0,
            c@.subchunk_visible_mask == 0,
            c@.revision == revision,
    {
        let mut solid: u32 = 0;
        let mut counts: [u16; 8] = [0u16; 8];
        let mut i: usize = 0;
        while i < CHUNK_VOLUME
            invariant
                blocks.len() == CHUNK_VOLUME,
                0 <= i <= CHUNK_VOLUME,
                solid == count_solid(blocks@, i as int),
                forall|s: int| 0 <= s < 8 ==> #[trigger] counts@[s] == count_solid_in(blocks@, s, i as int),
            decreases CHUNK_VOLUME - i,
        {
            proof {
                lemma_count_bounded(blocks@, 0, i as int);
                assert forall|s: int| 0 <= s < 8 implies #[trigger] counts@[s] <= i by {
                    lemma_count_bounded(blocks@, s, i as int);
                }
            }
            let b = blocks[i];
            if b != AIR_BLOCK {
                let x = i % CHUNK_SIZE;
                let z = (i / CHUNK_SIZE) % CHUNK_SIZE;
                let y = i / CHUNK_AREA;
                let sub = subchunk_index(x, y, z);
                solid = solid + 1;
                counts[sub] = counts[sub] + 1;
            }
            i = i + 1;
        }
        let mut occupancy: u8 = 0;
        let mut full: u8 = 0;
        let mut s: usize = 0;
        proof {
            lemma_zero_mask();
        }
        while s < 8
            invariant
                0 <= s <= 8,
                forall|t: int| 0 <= t < s ==> (#[trigger] mask_has(occupancy, t) <==> counts@[t] > 0),
                forall|t: int| 0 <= t < s ==> (#[trigger] mask_has(full, t) <==> counts@[t] == SUBCHUNK_VOLUME),
                forall|t: int| s <= t ==> !#[trigger] mask_has(occupancy, t),
                forall|t: int| s <= t ==> !#[trigger] mask_has(full, t),
            decreases 8 - s,
        {
            let bit = subchunk_bit(s);
            proof {
                lemma_or_bit(occupancy, bit, s as u8);
                lemma_or_bit(full, bit, s as u8);
            }
            if counts[s] > 0 {
                occupancy = occupancy | bit;
            }
            if counts[s] as usize == SUBCHUNK_VOLUME {
                full = full | bit;
            }
            s = s + 1;
        }
        Chunk {
            coord,
            blocks,
            solid_block_count: solid,
            subchunk_solid_counts: counts,
            subchunk_occupancy_mask: occupancy,
            subchunk_dirty_mask: 0,
            subchunk_visible_mask: 0,
            subchunk_full_solid_mask: full,
            revision,
        }
    }
}

impl Chunk {
    /// The block at local position `(x, y, z)`.
    pub fn get_block(&self, x: usize, y: usize, z: usize) -> (b: BlockId)
        requires
            self.wf(),
            in_chunk(x as int, y as int, z as int),
        ensures
            b == self@.block(x as int, y as int, z as int),
    {
        proof {
            lemma_local_index(x as int, y as int, z as int);
        }
        self.blocks[block_index(x, y, z)]
    }

    /// Stores a block without touching the counts, masks or revision.
    pub fn set_block_raw(&mut self, x: usize, y: usize, z: usize, block: BlockId)
        requires
            old(self)@.blocks.len() == CHUNK_VOLUME,
            in_chunk(x as int, y as int, z as int),
        ensures
            final(self)@ == (ChunkView {
                blocks: old(self)@.blocks.update(local_index(x as int, y as int, z as int), block),
                ..old(self)@
            }),
    {
        proof {
            lemma_local_index(x as int, y as int, z as int);
        }
        let index = block_index(x, y, z);
        self.blocks.set(index, block);
    }

    /// Stores a block and keeps the bookkeeping in step. Returns whether the block
    /// changed; a real change marks its subchunk dirty and advances the revision
    /// (wrapping), while storing the block already there changes nothing.
    pub fn set_block(&mut self, x: usize, y: usize, z: usize, new_block: BlockId) -> (changed: bool)
        requires
            old(self).wf(),
            in_chunk(x as int, y as int, z as int),
        ensures
            final(self).wf(),
            changed == (old(self)@.block(x as int, y as int, z as int) != new_block),
            !changed ==> final(self)@ == old(self)@,
            changed ==> {
                &&& final(self)@.blocks == old(self)@.blocks.update(
                    local_index(x as int, y as int, z as int),
                    new_block,
                )
                &&& final(self)@.coord == old(self)@.coord
                &&& final(self)@.subchunk_visible_mask == old(self)@.subchunk_visible_mask
                &&& final(self)@.subchunk_dirty_mask == old(self)@.subchunk_dirty_mask | (1u8 << (
                subchunk_of(x as int, y as int, z as int) as u8))
                &&& final(self)@.revision == (if old(self)@.revision == u32::MAX {
                    0
                } else {
                    old(self)@.revision + 1
                })
            },
    {
        proof {
            lemma_local_index(x as int, y as int, z as int);
        }
        let index = block_index(x, y, z);
        let old_block = self.blocks[index];

        if old_block == new_block {
            return false;
        }

        let old_is_air = old_block == AIR_BLOCK;
        let new_is_air = new_block == AIR_BLOCK;

        let sub = subchunk_index(x, y, z);
        let bit = subchunk_bit(sub);
        let ghost old_blocks = self.blocks@;
        let ghost old_occ = self.subchunk_occupancy_mask;
        let ghost old_counts = self.subchunk_solid_counts@;
        // The old bookkeeping, read off the invariant, before the block is stored.
        assert(old(self)@.wf());
        assert(old(self)@.subchunk_occupancy_mask == old_occ);
        assert(old(self)@.subchunk_solid_counts == old_counts);
        assert(forall|t: int| 0 <= t < 8 ==> (mask_has(old_occ, t) <==> old_counts[t] > 0));
        assert(forall|t: int|
            0 <= t < 8 ==> (mask_has(old(self)@.subchunk_full_solid_mask, t) <==> old_counts[t]
                == SUBCHUNK_VOLUME));

        self.blocks.set(index, new_block);

        proof {
            let nb = self.blocks@;
            assert(nb == old_blocks.update(index as int, new_block));
            lemma_count_update(old_blocks, index as int, new_block, 0, CHUNK_VOLUME as int);
            assert forall|t: int| 0 <= t < 8 implies #[trigger] count_solid_in(nb, t, CHUNK_VOLUME as int)
                == count_solid_in(old_blocks, t, CHUNK_VOLUME as int) - (if old_block != AIR_BLOCK
                && sub == t {
                1int
            } else {
                0int
            }) + (if new_block != AIR_BLOCK && sub == t {
                1int
            } else {
                0int
            }) by {
                lemma_count_update(old_blocks, index as int, new_block, t, CHUNK_VOLUME as int);
            }
            lemma_count_bounded(nb, sub as int, CHUNK_VOLUME as int);
            lemma_or_bit(old_occ, bit, sub as u8);
            lemma_clear_bit(old_occ, bit, sub as u8);
        }

        if old_is_air && !new_is_air {
            self.solid_block_count = self.solid_block_count + 1;
            self.subchunk_solid_counts[sub] = self.subchunk_solid_counts[sub] + 1;
            self.subchunk_occupancy_mask = self.subchunk_occupancy_mask | bit;
        } else if !old_is_air && new_is_air {
            self.solid_block_count = self.solid_block_count - 1;
            self.subchunk_solid_counts[sub] = self.subchunk_solid_counts[sub] - 1;

            if self.subchunk_solid_counts[sub] == 0 {
                self.subchunk_occupancy_mask = self.subchunk_occupancy_mask & !bit;
            }
        }

        let ghost old_full = self.subchunk_full_solid_mask;
        proof {
            lemma_or_bit(old_full, bit, sub as u8);
            lemma_clear_bit(old_full, bit, sub as u8);
        }
        if self.subchunk_solid_counts[sub] as usize == SUBCHUNK_VOLUME {
            self.subchunk_full_solid_mask = self.subchunk_full_solid_mask | bit;
        } else {
            self.subchunk_full_solid_mask = self.subchunk_full_solid_mask & !bit;
        }

        self.mark_subchunk_dirty(sub);
        self.revision = self.revision.wrapping_add(1);
        proof {
            assert forall|t: int| 0 <= t < 8 implies #[trigger] self@.subchunk_solid_counts[t]
                == count_solid_in(self@.blocks, t, CHUNK_VOLUME as int) by {
                if t != sub {
                    assert(self@.subchunk_solid_counts[t] == old_counts[t]);
                }
            }
            assert forall|t: int| 0 <= t < 8 implies (#[trigger] mask_has(
                self@.subchunk_occupancy_mask,
                t,
            ) <==> self@.subchunk_solid_counts[t] > 0) by {
                assert(mask_has(old_occ, t) <==> old_counts[t] > 0);
                if t != sub {
                    assert(self@.subchunk_solid_counts[t] == old_counts[t]);
                }
            }
            assert forall|t: int| 0 <= t < 8 implies (#[trigger] mask_has(
                self@.subchunk_full_solid_mask,
                t,
            ) <==> self@.subchunk_solid_counts[t] == SUBCHUNK_VOLUME) by {
                assert(mask_has(old_full, t) <==> mask_has(old(self)@.subchunk_full_solid_mask, t));
                if t != sub {
                    assert(self@.subchunk_solid_counts[t] == old_counts[t]);
                }
            }
        }
        true
    }

    /// Marks subchunk `sub` as needing a new mesh.
    pub fn mark_subchunk_dirty(&mut self, sub: usize)
        requires
            sub < 8,
        ensures
            final(self)@ == (ChunkView {
                subchunk_dirty_mask: old(self)@.subchunk_dirty_mask | (1u8 << (sub as u8)),
                ..old(self)@
            }),
    {
        self.subchunk_dirty_mask = self.subchunk_dirty_mask | subchunk_bit(sub);
    }

    /// Clears every dirty bit.
    pub fn clear_dirty(&mut self)
        ensures
            final(self)@ == (ChunkView { subchunk_dirty_mask: 0, ..old(self)@ }),
    {
        self.subchunk_dirty_mask = 0;
    }

    /// Whether the chunk holds no solid block.
    pub fn is_empty(&self) -> (e: bool)
        ensures
            e == (self@.solid_block_count == 0),
    {
        self.solid_block_count == 0
    }

    /// Whether subchunk `sub` holds no solid block.
    pub fn is_subchunk_empty(&self, sub: usize) -> (e: bool)
        requires
            sub < 8,
        ensures
            e == (self@.subchunk_solid_counts[sub as int] == 0),
    {
        self.subchunk_solid_counts[sub] == 0
    }

    /// Whether every block of subchunk `sub` is solid.
    pub fn is_subchunk_full(&self, sub: usize) -> (f: bool)
        requires
            sub < 8,
        ensures
            f == (self@.subchunk_solid_counts[sub as int] == SUBCHUNK_VOLUME),
    {
        self.subchunk_solid_counts[sub] as usize == SUBCHUNK_VOLUME
    }

    pub fn coord(&self) -> (c: ChunkCoord)
        ensures
            c == self@.coord,
    {
        self.coord
    }

    pub fn solid_block_count(&self) -> (n: u32)
        ensures
            n == self@.solid_block_count,
    {
        self.solid_block_count
    }

    pub fn subchunk_solid_counts(&self) -> (c: [u16; 8])
        ensures
            c@ == self@.subchunk_solid_counts,
    {
        self.subchunk_solid_counts
    }

    pub fn subchunk_occupancy_mask(&self) -> (m: u8)
        ensures
            m == self@.subchunk_occupancy_mask,
    {
        self.subchunk_occupancy_mask
    }

    pub fn subchunk_dirty_mask(&self) -> (m: u8)
        ensures
            m == self@.subchunk_dirty_mask,
    {
        self.subchunk_dirty_mask
    }

    pub fn subchunk_visible_mask(&self) -> (m: u8)
        ensures
            m == self@.subchunk_visible_mask,
    {
        self.subchunk_visible_mask
    }

    /// Records which subchunks produced visible geometry.
    pub fn set_subchunk_visible_mask(&mut self, mask: u8)
        ensures
            final(self)@ == (ChunkView { subchunk_visible_mask: mask, ..old(self)@ }),
    {
        self.subchunk_visible_mask = mask;
    }

    pub fn subchunk_full_solid_mask(&self) -> (m: u8)
        ensures
            m == self@.subchunk_full_solid_mask,
    {
        self.subchunk_full_solid_mask
    }

    pub fn revision(&self) -> (r: u32)
        ensures
            r == self@.revision,
    {
        self.revision
    }

    /// The blocks in flat index order.
    pub fn blocks(&self) -> (b: &[BlockId])
        ensures
            b@ == self@.blocks,
    {
        self.blocks.as_slice()
    }
}

impl Clone for Chunk {
    fn clone(&self) -> (c: Self)
        ensures
            c@ == self@,
    {
        let blocks = self.blocks.clone();
        proof {
            assert(blocks@ =~= self.blocks@);
        }
        Chunk {
            coord: self.coord,
            blocks,
            solid_block_count: self.solid_block_count,
            subchunk_solid_counts: self.subchunk_solid_counts,
            subchunk_occupancy_mask: self.subchunk_occupancy_mask,
            subchunk_dirty_mask: self.subchunk_dirty_mask,
            subchunk_visible_mask: self.subchunk_visible_mask,
            subchunk_full_solid_mask: self.subchunk_full_solid_mask,
            revision: self.revision,
        }
    }
}

} // verus!
