use vstd::prelude::*;

use crate::coords::ChunkCoord;
use crate::voxels::{
    index_x, index_y, index_z, lemma_view_determined_by_blocks, BlockId, Chunk, ChunkView, AIR_BLOCK, CHUNK_AREA, CHUNK_SIZE,
    CHUNK_VOLUME, COAL_ORE_BLOCK, DIRT_BLOCK, GRASS_BLOCK, IRON_ORE_BLOCK, STONE_BLOCK,
};

verus! {

pub const BASE_HEIGHT: i32 = 16;
pub const SURFACE_DIRT_DEPTH: i32 = 4;
pub const CAVE_SURFACE_BUFFER: i32 = 6;
pub const CAVE_CELL_SIZE: i32 = 12;
pub const COAL_MAX_HEIGHT: i32 = 48;
pub const IRON_MAX_HEIGHT: i32 = 16;

/// Smallest 16-bit hash whose unit value `bits / 65535` exceeds the iron rarity 0.992.
pub const IRON_HASH_THRESHOLD: u16 = 65011;

/// Smallest 16-bit hash whose unit value `bits / 65535` exceeds the coal rarity 0.985.
pub const COAL_HASH_THRESHOLD: u16 = 64552;

pub const IRON_SALT: u64 = 0x1A2B_3C4D_5E6F_7788;
pub const COAL_SALT: u64 = 0x9988_7766_5544_3322;

pub const HASH_X_OFFSET: u64 = 0x9E37_79B9_7F4A_7C15;
pub const HASH_Y_OFFSET: u64 = 0xBF58_476D_1CE4_E5B9;
pub const HASH_Z_OFFSET: u64 = 0xD6E8_FD9B_5F36_6DAB;
pub const HASH_MULTIPLIER: u64 = 0x94D0_49BB_1331_11EB;

/// Number of terrain columns in a chunk.
pub const CHUNK_COLUMNS: usize = 1024;

/// Rotation of a 64-bit word to the left.
pub open spec fn rotl64(v: u64, n: u64) -> u64 {
    (v << n) | (v >> ((64 - n) as u64))
}

/// The two's-complement bits of a signed coordinate widened to 64 bits.
pub open spec fn coord_bits(v: i32) -> u64 {
    (v as i64) as u64
}

/// The 16 hash bits that drive the 2D value noise at lattice point `(x, z)`.
pub open spec fn hash_2d_bits_spec(seed: u64, x: i32, z: i32) -> u16 {
    let v0 = seed ^ vstd::wrapping::u64_specs::wrapping_add(coord_bits(x), HASH_X_OFFSET);
    let v1 = rotl64(v0, 13);
    let v2 = v1 ^ vstd::wrapping::u64_specs::wrapping_add(coord_bits(z), HASH_Y_OFFSET);
    let v3 = vstd::wrapping::u64_specs::wrapping_mul(v2, HASH_MULTIPLIER);
    (v3 & 0xFFFFu64) as u16
}

/// The 16 hash bits at lattice point `(x, y, z)` under `salt`.
pub open spec fn hash_3d_bits_spec(seed: u64, x: i32, y: i32, z: i32, salt: u64) -> u16 {
    let v0 = (seed ^ salt) ^ vstd::wrapping::u64_specs::wrapping_add(coord_bits(x), HASH_X_OFFSET);
    let v1 = rotl64(v0, 13);
    let v2 = v1 ^ vstd::wrapping::u64_specs::wrapping_add(coord_bits(y), HASH_Y_OFFSET);
    let v3 = vstd::wrapping::u64_specs::wrapping_mul(v2, HASH_MULTIPLIER);
    let v4 = v3 ^ vstd::wrapping::u64_specs::wrapping_add(coord_bits(z), HASH_Z_OFFSET);
    let v5 = rotl64(v4, 17);
    (v5 & 0xFFFFu64) as u16
}

/// The ore placed at a stone position, if any: iron deep down when its hash is rare
/// enough, else coal when its hash is rare enough.
pub open spec fn ore_spec(seed: u64, x: i32, y: i32, z: i32) -> Option<BlockId> {
    if y <= IRON_MAX_HEIGHT && hash_3d_bits_spec(seed, x, y, z, IRON_SALT) >= IRON_HASH_THRESHOLD {
        Some(IRON_ORE_BLOCK)
    } else if y <= COAL_MAX_HEIGHT && hash_3d_bits_spec(seed, x, y, z, COAL_SALT)
        >= COAL_HASH_THRESHOLD {
        Some(COAL_ORE_BLOCK)
    } else {
        None
    }
}

/// The generated block at world `(x, y, z)` for a column of surface height `height`,
/// where `cave_noise_high` says whether the cave noise exceeds its threshold there.
pub open spec fn generated_block_spec(
    seed: u64,
    x: i32,
    y: i32,
    z: i32,
    height: int,
    cave_noise_high: bool,
) -> BlockId {
    if y > height {
        AIR_BLOCK
    } else if y == height {
        GRASS_BLOCK
    } else if y >= height - SURFACE_DIRT_DEPTH {
        DIRT_BLOCK
    } else if y <= height - CAVE_SURFACE_BUFFER && cave_noise_high {
        AIR_BLOCK
    } else {
        match ore_spec(seed, x, y, z) {
            Some(ore) => ore,
            None => STONE_BLOCK,
        }
    }
}

/// Chunk coordinates whose blocks all have world coordinates that fit in an `i32`.
pub open spec fn chunk_in_world_range(c: ChunkCoord) -> bool {
    &&& -0x400_0000 <= c.x < 0x400_0000
    &&& -0x400_0000 <= c.y < 0x400_0000
    &&& -0x400_0000 <= c.z < 0x400_0000
}

/// Whether the blocks of the chunk at `c` have coordinates that fit an `i32`.
pub fn chunk_in_range(c: ChunkCoord) -> (b: bool)
    ensures
        b == chunk_in_world_range(c),
{
    -0x400_0000 <= c.x && c.x < 0x400_0000 && -0x400_0000 <= c.y && c.y < 0x400_0000
        && -0x400_0000 <= c.z && c.z < 0x400_0000
}

/// World coordinate of local coordinate `l` in a chunk whose coordinate is `c`.
pub open spec fn world_of(c: i32, l: int) -> i32 {
    (c * 32 + l) as i32
}

/// The abstract content of terrain samples for one chunk.
pub struct TerrainSamplesView {
    pub height_variation: Seq<u8>,
    pub cave_noise_high: Seq<bool>,
}

/// The float-noise results that terrain generation consumes for one chunk: for each
/// column `x + 32 * z` the height variation above the base height, and for each block
/// (flat index order) whether the cave noise exceeds its threshold.
pub struct TerrainSamples {
    height_variation: Vec<u8>,
    cave_noise_high: Vec<bool>,
}

impl View for TerrainSamples {
    type V = TerrainSamplesView;

    closed spec fn view(&self) -> TerrainSamplesView {
        TerrainSamplesView {
            height_variation: self.height_variation@,
            cave_noise_high: self.cave_noise_high@,
        }
    }
}

impl TerrainSamplesView {
    pub open spec fn wf(self) -> bool {
        self.height_variation.len() == CHUNK_COLUMNS && self.cave_noise_high.len() == CHUNK_VOLUME
    }

    /// Surface height of column `(lx, lz)`.
    pub open spec fn height(self, lx: int, lz: int) -> int {
        BASE_HEIGHT + self.height_variation[lx + lz * 32]
    }
}

/// The generated block with flat index `i` of the chunk at `coord`.
pub open spec fn generated_block_at(
    seed: u64,
    coord: ChunkCoord,
    samples: TerrainSamplesView,
    i: int,
) -> BlockId {
    generated_block_spec(
        seed,
        world_of(coord.x, index_x(i)),
        world_of(coord.y, index_y(i)),
        world_of(coord.z, index_z(i)),
        samples.height(index_x(i), index_z(i)),
        samples.cave_noise_high[i],
    )
}

/// `v` is the freshly generated chunk at `coord` for some terrain samples.
pub open spec fn is_generated_chunk(seed: u64, coord: ChunkCoord, v: ChunkView) -> bool {
    &&& v.wf()
    &&& v.coord == coord
    &&& v.subchunk_dirty_mask == 0
    &&& v.subchunk_visible_mask == 0
    &&& v.revision == 0
    &&& exists|s: TerrainSamplesView|
        s.wf() && forall|i: int|
            0 <= i < CHUNK_VOLUME ==> #[trigger] v.blocks[i] == generated_block_at(seed, coord, s, i)
}

impl TerrainSamples {
    /// Samples for one chunk; `None` unless there is one height variation per column
    /// and one cave flag per block.
    pub fn new(height_variation: Vec<u8>, cave_noise_high: Vec<bool>) -> (s: Option<TerrainSamples>)
        ensures
            s is Some <==> (height_variation.len() == CHUNK_COLUMNS && cave_noise_high.len()
                == CHUNK_VOLUME),
            s matches Some(t) ==> t@.height_variation == height_variation@
                && t@.cave_noise_high == cave_noise_high@,
    {
        if height_variation.len() == CHUNK_COLUMNS && cave_noise_high.len() == CHUNK_VOLUME {
            Some(TerrainSamples { height_variation, cave_noise_high })
        } else {
            None
        }
    }

    #[verifier::type_invariant]
    closed spec fn samples_complete(&self) -> bool {
        self.height_variation.len() == CHUNK_COLUMNS && self.cave_noise_high.len() == CHUNK_VOLUME
    }
}

/// Supplies the noise samples of the terrain of a chunk.
pub trait TerrainSource {
    fn sample_chunk(&self, seed: u64, coord: ChunkCoord) -> TerrainSamples;
}

/// Seeded deterministic terrain generation.
pub struct WorldGenerator {
    pub seed: u64,
}

fn rotate_left(v: u64, n: u64) -> (r: u64)
    requires
        0 < n < 64,
    ensures
        r == rotl64(v, n),
{
    (v << n) | (v >> (64 - n))
}

impl WorldGenerator {
    pub fn new(seed: u64) -> (g: WorldGenerator)
        ensures
            g.seed == seed,
    {
        WorldGenerator { seed }
    }

    /// The 16 bits of the lattice hash behind the 2D height noise.
    pub fn hash_2d_bits(&self, x: i32, z: i32) -> (h: u16)
        ensures
            h == hash_2d_bits_spec(self.seed, x, z),
    {
        let mut value = self.seed;
        let x_bits = x as i64 as u64;
        let z_bits = z as i64 as u64;
        value = value ^ x_bits.wrapping_add(HASH_X_OFFSET);
        value = rotate_left(value, 13);
        value = value ^ z_bits.wrapping_add(HASH_Y_OFFSET);
        value = value.wrapping_mul(HASH_MULTIPLIER);
        (value & 0xFFFF) as u16
    }

    /// The 16 bits of the salted lattice hash behind the cave noise and ore placement.
    pub fn hash_3d_bits(&self, x: i32, y: i32, z: i32, salt: u64) -> (h: u16)
        ensures
            h == hash_3d_bits_spec(self.seed, x, y, z, salt),
    {
        let mut value = self.seed ^ salt;
        value = value ^ (x as i64 as u64).wrapping_add(HASH_X_OFFSET);
        value = rotate_left(value, 13);
        value = value ^ (y as i64 as u64).wrapping_add(HASH_Y_OFFSET);
        value = value.wrapping_mul(HASH_MULTIPLIER);
        value = value ^ (z as i64 as u64).wrapping_add(HASH_Z_OFFSET);
        value = rotate_left(value, 17);
        (value & 0xFFFF) as u16
    }

    /// Surface height of a column whose noise gave `height_variation`.
    pub fn terrain_height(&self, height_variation: u8) -> (h: i32)
        ensures
            h == BASE_HEIGHT + height_variation,
    {
        BASE_HEIGHT + height_variation as i32
    }

    /// Whether a cave is carved at height `world_y` below a surface at `height`:
    /// never within the buffer under the surface, else where the noise is high.
    pub fn should_carve_cave(&self, world_y: i32, height: i32, cave_noise_high: bool) -> (c: bool)
        requires
            i32::MIN + CAVE_SURFACE_BUFFER <= height,
        ensures
            c == (world_y <= height - CAVE_SURFACE_BUFFER && cave_noise_high),
    {
        if world_y > height - CAVE_SURFACE_BUFFER {
            return false;
        }
        cave_noise_high
    }

    /// The ore at a stone position, if its salted hash is rare enough.
    pub fn generate_ore(&self, world_x: i32, world_y: i32, world_z: i32) -> (o: Option<BlockId>)
        ensures
            o == ore_spec(self.seed, world_x, world_y, world_z),
    {
        if world_y <= IRON_MAX_HEIGHT && self.hash_3d_bits(world_x, world_y, world_z, IRON_SALT)
            >= IRON_HASH_THRESHOLD {
            return Some(IRON_ORE_BLOCK);
        }
        if world_y <= COAL_MAX_HEIGHT && self.hash_3d_bits(world_x, world_y, world_z, COAL_SALT)
            >= COAL_HASH_THRESHOLD {
            return Some(COAL_ORE_BLOCK);
        }
        None
    }

    /// The block at a world position: air above the surface, grass on it, four layers
    /// of dirt below it, then stone with carved caves and ores.
    pub fn generate_block(
        &self,
        world_x: i32,
        world_y: i32,
        world_z: i32,
        height_variation: u8,
        cave_noise_high: bool,
    ) -> (b: BlockId)
        ensures
            b == generated_block_spec(
                self.seed,
                world_x,
                world_y,
                world_z,
                BASE_HEIGHT + height_variation,
                cave_noise_high,
            ),
    {
        let height = self.terrain_height(height_variation);

        if world_y > height {
            return AIR_BLOCK;
        }
        if world_y == height {
            return GRASS_BLOCK;
        }
        if world_y >= height - SURFACE_DIRT_DEPTH {
            return DIRT_BLOCK;
        }
        if self.should_carve_cave(world_y, height, cave_noise_high) {
            return AIR_BLOCK;
        }
        match self.generate_ore(world_x, world_y, world_z) {
            Some(ore) => ore,
            None => STONE_BLOCK,
        }
    }

    /// The chunk at `coord` generated from its terrain samples: every block follows
    /// the generation rule, the bookkeeping is fresh, nothing is dirty and the
    /// revision is 0.
    pub fn generate_chunk(&self, coord: ChunkCoord, samples: &TerrainSamples) -> (c: Chunk)
        requires
            chunk_in_world_range(coord),
        ensures
            c.wf(),
            c@.coord == coord,
            c@.subchunk_dirty_mask == 0,
            c@.subchunk_visible_mask == 0,
            c@.revision == 0,
            forall|i: int|
                0 <= i < CHUNK_VOLUME ==> #[trigger] c@.blocks[i] == generated_block_at(
                    self.seed,
                    coord,
                    samples@,
                    i,
                ),
            is_generated_chunk(self.seed, coord, c@),
    {
        proof {
            use_type_invariant(samples);
        }
        let mut blocks: Vec<BlockId> = Vec::with_capacity(CHUNK_VOLUME);
        let base_x: i32 = coord.x * 32;
        let base_y: i32 = coord.y * 32;
        let base_z: i32 = coord.z * 32;
        let mut i: usize = 0;
        while i < CHUNK_VOLUME
            invariant
                0 <= i <= CHUNK_VOLUME,
                samples@.wf(),
                chunk_in_world_range(coord),
                base_x == coord.x * 32,
                base_y == coord.y * 32,
                base_z == coord.z * 32,
                blocks@.len() == i,
                forall|j: int|
                    0 <= j < i ==> #[trigger] blocks@[j] == generated_block_at(
                        self.seed,
                        coord,
                        samples@,
                        j,
                    ),
            decreases CHUNK_VOLUME - i,
        {
            let x = i % CHUNK_SIZE;
            let z = (i / CHUNK_SIZE) % CHUNK_SIZE;
            let y = i / CHUNK_AREA;
            let world_x = base_x + x as i32;
            let world_y = base_y + y as i32;
            let world_z = base_z + z as i32;
            let variation = samples.height_variation[x + z * CHUNK_SIZE];
            let cave = samples.cave_noise_high[i];
            let block = self.generate_block(world_x, world_y, world_z, variation, cave);
            blocks.push(block);
            i = i + 1;
        }
        let c = Chunk::from_blocks(coord, blocks, 0);
        proof {
            assert(c@.subchunk_dirty_mask == 0);
        }
        c
    }
}


/// The layers of generated terrain, for every position and surface height: air above
/// the surface, grass on it, dirt in the four blocks below it; deeper down, air where a
/// cave is carved (only from six blocks below the surface down), else the ore placed
/// there, else stone.
pub proof fn lemma_generated_layers(seed: u64, x: i32, y: i32, z: i32, height: int, cave_noise_high: bool)
    ensures
        ({
            let b = generated_block_spec(seed, x, y, z, height, cave_noise_high);
            let carved = y <= height - 6 && cave_noise_high;
            &&& y > height ==> b == AIR_BLOCK
            &&& y == height ==> b == GRASS_BLOCK
            &&& height - 4 <= y < height ==> b == DIRT_BLOCK
            &&& y < height - 4 && carved ==> b == AIR_BLOCK
            &&& y < height - 4 && !carved && ore_spec(seed, x, y, z) is None ==> b == STONE_BLOCK
            &&& y < height - 4 && !carved ==> (ore_spec(seed, x, y, z) matches Some(o) ==> b == o)
        }),
{
}

/// Ores: iron at heights up to 16 where its salted hash reaches the iron threshold,
/// else coal at heights up to 48 where its salted hash reaches the coal threshold, else
/// none.
pub proof fn lemma_ore_placement(seed: u64, x: i32, y: i32, z: i32)
    ensures
        ({
            let iron = y <= 16 && hash_3d_bits_spec(seed, x, y, z, IRON_SALT) >= 65011;
            let coal = y <= 48 && hash_3d_bits_spec(seed, x, y, z, COAL_SALT) >= 64552;
            &&& ore_spec(seed, x, y, z) == Some(IRON_ORE_BLOCK) <==> iron
            &&& ore_spec(seed, x, y, z) == Some(COAL_ORE_BLOCK) <==> !iron && coal
            &&& ore_spec(seed, x, y, z) is None <==> !iron && !coal
        }),
{
}

/// Generation is deterministic: two chunks generated for the same seed and coordinate
/// from the same terrain samples are the same chunk.
pub proof fn lemma_generation_deterministic(
    seed: u64,
    coord: ChunkCoord,
    samples: TerrainSamplesView,
    c1: ChunkView,
    c2: ChunkView,
)
    requires
        c1.wf(),
        c2.wf(),
        c1.coord == coord,
        c2.coord == coord,
        c1.subchunk_dirty_mask == 0 && c2.subchunk_dirty_mask == 0,
        c1.subchunk_visible_mask == 0 && c2.subchunk_visible_mask == 0,
        c1.revision == 0 && c2.revision == 0,
        forall|i: int|
            0 <= i < CHUNK_VOLUME ==> #[trigger] c1.blocks[i] == generated_block_at(seed, coord, samples, i),
        forall|i: int|
            0 <= i < CHUNK_VOLUME ==> #[trigger] c2.blocks[i] == generated_block_at(seed, coord, samples, i),
    ensures
        c1 == c2,
{
    assert(c1.blocks =~= c2.blocks) by {
        assert forall|i: int| 0 <= i < c1.blocks.len() implies c1.blocks[i] == c2.blocks[i] by {
            assert(c1.blocks[i] == generated_block_at(seed, coord, samples, i));
        }
    }
    lemma_view_determined_by_blocks(c1, c2);
}
} // verus!
