use adventure_quest::coords::{BlockPos, ChunkCoord};
use adventure_quest::persistence::{
    decode_chunks, encode_chunks, encode_saved_chunks, modified_chunks, order_chunks_for_save,
    read_i32, read_u16, read_u32, read_u64, saved_chunk_update, write_i32, write_u16, write_u32,
    write_u64, ChunkSaveError, SavedChunkUpdate, CHUNK_RECORD_LEN, CHUNK_SAVE_HEADER_LEN,
};
use adventure_quest::terrain::{TerrainSamples, TerrainSource, WorldGenerator, CAVE_CELL_SIZE};
use adventure_quest::voxels::{Chunk, CHUNK_SIZE, CHUNK_VOLUME, STONE_BLOCK};
use adventure_quest::world::VoxelWorld;

// The value-noise terrain the game samples (floating point stays outside the library).
const HEIGHT_VARIATION: f32 = 12.0;
const CAVE_THRESHOLD: f32 = 0.72;
const HEIGHT_CELL_SIZE: i32 = 16;

/// Value-noise terrain: hashed lattice values smoothed between cells.
#[derive(Debug, Clone, Copy, Default)]
pub struct NoiseTerrain;

impl TerrainSource for NoiseTerrain {
    fn sample_chunk(&self, seed: u64, coord: ChunkCoord) -> TerrainSamples {
        let generator = WorldGenerator::new(seed);
        let size = CHUNK_SIZE as i32;
        let mut heights = Vec::with_capacity(CHUNK_SIZE * CHUNK_SIZE);

        for z in 0..size {
            for x in 0..size {
                let noise = value_noise_2d(&generator, coord.x * size + x, coord.z * size + z);
                heights.push((noise * HEIGHT_VARIATION) as i32 as u8);
            }
        }

        let mut caves = Vec::with_capacity(CHUNK_VOLUME);

        for y in 0..size {
            for z in 0..size {
                for x in 0..size {
                    let noise = value_noise_3d(
                        &generator,
                        coord.x * size + x,
                        coord.y * size + y,
                        coord.z * size + z,
                        CAVE_CELL_SIZE,
                    );
                    caves.push(noise > CAVE_THRESHOLD);
                }
            }
        }

        TerrainSamples::new(heights, caves).expect("one height per column and one flag per block")
    }
}

fn hash_to_unit(generator: &WorldGenerator, x: i32, z: i32) -> f32 {
    generator.hash_2d_bits(x, z) as f32 / 65535.0
}

fn hash_3d_to_unit(generator: &WorldGenerator, x: i32, y: i32, z: i32) -> f32 {
    generator.hash_3d_bits(x, y, z, 0) as f32 / 65535.0
}

fn value_noise_2d(generator: &WorldGenerator, x: i32, z: i32) -> f32 {
    let x0 = x.div_euclid(HEIGHT_CELL_SIZE);
    let z0 = z.div_euclid(HEIGHT_CELL_SIZE);

    let local_x = x.rem_euclid(HEIGHT_CELL_SIZE) as f32 / HEIGHT_CELL_SIZE as f32;
    let local_z = z.rem_euclid(HEIGHT_CELL_SIZE) as f32 / HEIGHT_CELL_SIZE as f32;

    let h00 = hash_to_unit(generator, x0, z0);
    let h10 = hash_to_unit(generator, x0 + 1, z0);
    let h01 = hash_to_unit(generator, x0, z0 + 1);
    let h11 = hash_to_unit(generator, x0 + 1, z0 + 1);

    let sx = smoothstep(local_x);
    let sz = smoothstep(local_z);

    let a = lerp(h00, h10, sx);
    let b = lerp(h01, h11, sx);

    lerp(a, b, sz)
}

fn value_noise_3d(generator: &WorldGenerator, x: i32, y: i32, z: i32, cell_size: i32) -> f32 {
    let x0 = x.div_euclid(cell_size);
    let y0 = y.div_euclid(cell_size);
    let z0 = z.div_euclid(cell_size);

    let local_x = x.rem_euclid(cell_size) as f32 / cell_size as f32;
    let local_y = y.rem_euclid(cell_size) as f32 / cell_size as f32;
    let local_z = z.rem_euclid(cell_size) as f32 / cell_size as f32;

    let sx = smoothstep(local_x);
    let sy = smoothstep(local_y);
    let sz = smoothstep(local_z);

    let c000 = hash_3d_to_unit(generator, x0, y0, z0);
    let c100 = hash_3d_to_unit(generator, x0 + 1, y0, z0);
    let c010 = hash_3d_to_unit(generator, x0, y0 + 1, z0);
    let c110 = hash_3d_to_unit(generator, x0 + 1, y0 + 1, z0);
    let c001 = hash_3d_to_unit(generator, x0, y0, z0 + 1);
    let c101 = hash_3d_to_unit(generator, x0 + 1, y0, z0 + 1);
    let c011 = hash_3d_to_unit(generator, x0, y0 + 1, z0 + 1);
    let c111 = hash_3d_to_unit(generator, x0 + 1, y0 + 1, z0 + 1);

    let x00 = lerp(c000, c100, sx);
    let x10 = lerp(c010, c110, sx);
    let x01 = lerp(c001, c101, sx);
    let x11 = lerp(c011, c111, sx);

    let y0 = lerp(x00, x10, sy);
    let y1 = lerp(x01, x11, sy);

    lerp(y0, y1, sz)
}

fn lerp(a: f32, b: f32, t: f32) -> f32 {
    a + (b - a) * t
}

fn smoothstep(t: f32) -> f32 {
    t * t * (3.0 - 2.0 * t)
}

#[test]
fn unmodified_world_saves_no_chunks() {
    let mut world = VoxelWorld::new(99, NoiseTerrain);
    world.load_chunk(ChunkCoord::new(0, 0, 0));

    let modified = modified_chunks(&world);
    let bytes = encode_saved_chunks(world.seed(), &modified);
    let chunks = decode_chunks(&bytes).unwrap();

    assert_eq!(modified.len(), 0);
    assert!(chunks.is_empty());
}

#[test]
fn modified_chunk_round_trips() {
    let mut world = VoxelWorld::new(99, NoiseTerrain);
    let pos = BlockPos::new(0, 48, 0);

    world.set_block(pos, STONE_BLOCK);

    let modified = modified_chunks(&world);
    let bytes = encode_saved_chunks(world.seed(), &modified);
    let chunks = decode_chunks(&bytes).unwrap();
    let coord = ChunkCoord::new(0, 1, 0);

    assert_eq!(modified.len(), 1);
    let loaded = chunks.iter().find(|c| c.coord() == coord).unwrap();
    assert_eq!(loaded.get_block(0, 16, 0), STONE_BLOCK);
}

#[test]
fn explicit_saved_chunk_map_round_trips() {
    let coord = ChunkCoord::new(1, 0, -2);
    let mut chunk = Chunk::new_empty(coord);
    chunk.set_block(3, 4, 5, STONE_BLOCK);

    let bytes = encode_saved_chunks(99, &[&chunk]);
    let loaded = decode_chunks(&bytes).unwrap();

    assert_eq!(loaded.len(), 1);
    assert_eq!(loaded[0].coord(), coord);
    assert_eq!(loaded[0].get_block(3, 4, 5), STONE_BLOCK);
    assert_eq!(loaded[0].revision(), chunk.revision());
    assert_eq!(loaded[0].subchunk_dirty_mask(), 0);
    assert_eq!(loaded[0].solid_block_count(), 1);
}

#[test]
fn chunk_save_layout_has_header_and_fixed_records() {
    let a = Chunk::new_empty(ChunkCoord::new(0, 0, 0));
    let b = Chunk::new_empty(ChunkCoord::new(-1, 2, 3));

    let bytes = encode_chunks(0x0102_0304_0506_0708, &[&a, &b]);

    assert_eq!(bytes.len(), CHUNK_SAVE_HEADER_LEN + 2 * CHUNK_RECORD_LEN);
    assert_eq!(&bytes[0..8], b"AQCHNK1\0");
    assert_eq!(&bytes[8..16], &0x0102_0304_0506_0708u64.to_le_bytes());
    assert_eq!(&bytes[16..20], &2u32.to_le_bytes());
    let second = CHUNK_SAVE_HEADER_LEN + CHUNK_RECORD_LEN;
    assert_eq!(&bytes[second..second + 4], &(-1i32).to_le_bytes());
}

#[test]
fn saves_are_written_in_y_z_x_order() {
    let high = Chunk::new_empty(ChunkCoord::new(0, 5, 0));
    let low_far = Chunk::new_empty(ChunkCoord::new(0, 0, 9));
    let low_near = Chunk::new_empty(ChunkCoord::new(4, 0, 1));

    let ordered = order_chunks_for_save(&[&high, &low_far, &low_near]);
    let coords: Vec<ChunkCoord> = ordered.iter().map(|c| c.coord()).collect();
    assert_eq!(
        coords,
        vec![ChunkCoord::new(4, 0, 1), ChunkCoord::new(0, 0, 9), ChunkCoord::new(0, 5, 0)]
    );

    let bytes = encode_saved_chunks(1, &[&high, &low_far, &low_near]);
    let loaded = decode_chunks(&bytes).unwrap();
    let loaded_coords: Vec<ChunkCoord> = loaded.iter().map(|c| c.coord()).collect();
    assert_eq!(loaded_coords, coords);
}

#[test]
fn damaged_saves_are_refused() {
    let chunk = Chunk::new_empty(ChunkCoord::new(0, 0, 0));
    let bytes = encode_chunks(5, &[&chunk]);

    assert_eq!(decode_chunks(&bytes[..5]).err(), Some(ChunkSaveError::UnexpectedEof));
    assert_eq!(decode_chunks(&bytes[..bytes.len() - 1]).err(), Some(ChunkSaveError::UnexpectedEof));
    let mut wrong_magic = bytes.clone();
    wrong_magic[0] = b'X';
    assert_eq!(decode_chunks(&wrong_magic).err(), Some(ChunkSaveError::InvalidHeader));
}

#[test]
fn little_endian_integers_round_trip() {
    let mut out = Vec::new();
    write_u16(&mut out, 0xBEEF);
    write_u32(&mut out, 0xDEAD_BEEF);
    write_i32(&mut out, -123_456);
    write_u64(&mut out, u64::MAX - 5);

    assert_eq!(out[0..2], [0xEF, 0xBE]);
    let mut pos = 0;
    assert_eq!(read_u16(&out, &mut pos), Ok(0xBEEF));
    assert_eq!(read_u32(&out, &mut pos), Ok(0xDEAD_BEEF));
    assert_eq!(read_i32(&out, &mut pos), Ok(-123_456));
    assert_eq!(read_u64(&out, &mut pos), Ok(u64::MAX - 5));
    assert_eq!(pos, out.len());
    assert_eq!(read_u16(&out, &mut pos), Err(ChunkSaveError::UnexpectedEof));
}

#[test]
fn saved_copies_follow_the_changed_chunks() {
    let mut world = VoxelWorld::new(99, NoiseTerrain);
    let coord = ChunkCoord::new(0, 1, 0);
    world.load_chunk(coord);
    assert!(matches!(saved_chunk_update(&world, coord), SavedChunkUpdate::Remove));

    let pos = BlockPos::new(0, 48, 0);
    let before = world.get_block(pos);
    world.set_block(pos, STONE_BLOCK);
    assert_ne!(before, STONE_BLOCK);
    match saved_chunk_update(&world, coord) {
        SavedChunkUpdate::Store(chunk) => assert_eq!(chunk.get_block(0, 16, 0), STONE_BLOCK),
        SavedChunkUpdate::Remove => panic!("a changed chunk keeps its saved copy"),
    }

    world.set_block(pos, before);
    assert!(matches!(saved_chunk_update(&world, coord), SavedChunkUpdate::Remove));

    assert!(matches!(
        saved_chunk_update(&world, ChunkCoord::new(5, 5, 5)),
        SavedChunkUpdate::Remove
    ));
}
