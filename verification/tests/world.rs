use adventure_quest::coords::{BlockPos, ChunkCoord};
use adventure_quest::terrain::{
    TerrainSamples, TerrainSource, WorldGenerator, CAVE_CELL_SIZE, COAL_HASH_THRESHOLD,
    IRON_HASH_THRESHOLD,
};
use adventure_quest::voxels::{
    subchunk_bit, Chunk, AIR_BLOCK, CHUNK_SIZE, CHUNK_VOLUME, COAL_ORE_BLOCK, DIRT_BLOCK,
    GRASS_BLOCK, IRON_ORE_BLOCK, STONE_BLOCK,
};
use adventure_quest::world::{BlockEdit, VoxelWorld, WorldStreamingSettings};

// The value-noise terrain the game samples (floating point stays outside the library).
const HEIGHT_VARIATION: f32 = 12.0;
const CAVE_THRESHOLD: f32 = 0.72;
const HEIGHT_CELL_SIZE: i32 = 16;

/// Value-noise terrain: hashed lattice values smoothed between cells.
#[derive(Debug, Clone, Copy, Default)]
pub struct NoiseTerrain;

impl TerrainSource for NoiseTerrain {
    fn sample_chunk(&self, seed: u64, coord: ChunkCoord) -> TerrainSamples {
        let generator = WorldGenerator::new(seed);
        let size = CHUNK_SIZE as i32;
        let mut heights = Vec::with_capacity(CHUNK_SIZE * CHUNK_SIZE);

        for z in 0..size {
            for x in 0..size {
                let noise = value_noise_2d(&generator, coord.x * size + x, coord.z * size + z);
                heights.push((noise * HEIGHT_VARIATION) as i32 as u8);
            }
        }

        let mut caves = Vec::with_capacity(CHUNK_VOLUME);

        for y in 0..size {
            for z in 0..size {
                for x in 0..size {
                    let noise = value_noise_3d(
                        &generator,
                        coord.x * size + x,
                        coord.y * size + y,
                        coord.z * size + z,
                        CAVE_CELL_SIZE,
                    );
                    caves.push(noise > CAVE_THRESHOLD);
                }
            }
        }

        TerrainSamples::new(heights, caves).expect("one height per column and one flag per block")
    }
}

fn hash_to_unit(generator: &WorldGenerator, x: i32, z: i32) -> f32 {
    generator.hash_2d_bits(x, z) as f32 / 65535.0
}

fn hash_3d_to_unit(generator: &WorldGenerator, x: i32, y: i32, z: i32) -> f32 {
    generator.hash_3d_bits(x, y, z, 0) as f32 / 65535.0
}

fn value_noise_2d(generator: &WorldGenerator, x: i32, z: i32) -> f32 {
    let x0 = x.div_euclid(HEIGHT_CELL_SIZE);
    let z0 = z.div_euclid(HEIGHT_CELL_SIZE);

    let local_x = x.rem_euclid(HEIGHT_CELL_SIZE) as f32 / HEIGHT_CELL_SIZE as f32;
    let local_z = z.rem_euclid(HEIGHT_CELL_SIZE) as f32 / HEIGHT_CELL_SIZE as f32;

    let h00 = hash_to_unit(generator, x0, z0);
    let h10 = hash_to_unit(generator, x0 + 1, z0);
    let h01 = hash_to_unit(generator, x0, z0 + 1);
    let h11 = hash_to_unit(generator, x0 + 1, z0 + 1);

    let sx = smoothstep(local_x);
    let sz = smoothstep(local_z);

    let a = lerp(h00, h10, sx);
    let b = lerp(h01, h11, sx);

    lerp(a, b, sz)
}

fn value_noise_3d(generator: &WorldGenerator, x: i32, y: i32, z: i32, cell_size: i32) -> f32 {
    let x0 = x.div_euclid(cell_size);
    let y0 = y.div_euclid(cell_size);
    let z0 = z.div_euclid(cell_size);

    let local_x = x.rem_euclid(cell_size) as f32 / cell_size as f32;
    let local_y = y.rem_euclid(cell_size) as f32 / cell_size as f32;
    let local_z = z.rem_euclid(cell_size) as f32 / cell_size as f32;

    let sx = smoothstep(local_x);
    let sy = smoothstep(local_y);
    let sz = smoothstep(local_z);

    let c000 = hash_3d_to_unit(generator, x0, y0, z0);
    let c100 = hash_3d_to_unit(generator, x0 + 1, y0, z0);
    let c010 = hash_3d_to_unit(generator, x0, y0 + 1, z0);
    let c110 = hash_3d_to_unit(generator, x0 + 1, y0 + 1, z0);
    let c001 = hash_3d_to_unit(generator, x0, y0, z0 + 1);
    let c101 = hash_3d_to_unit(generator, x0 + 1, y0, z0 + 1);
    let c011 = hash_3d_to_unit(generator, x0, y0 + 1, z0 + 1);
    let c111 = hash_3d_to_unit(generator, x0 + 1, y0 + 1, z0 + 1);

    let x00 = lerp(c000, c100, sx);
    let x10 = lerp(c010, c110, sx);
    let x01 = lerp(c001, c101, sx);
    let x11 = lerp(c011, c111, sx);

    let y0 = lerp(x00, x10, sy);
    let y1 = lerp(x01, x11, sy);

    lerp(y0, y1, sz)
}

fn lerp(a: f32, b: f32, t: f32) -> f32 {
    a + (b - a) * t
}

fn smoothstep(t: f32) -> f32 {
    t * t * (3.0 - 2.0 * t)
}

fn world_with_empty_chunk(coord: ChunkCoord) -> VoxelWorld<NoiseTerrain> {
    let mut world = VoxelWorld::new(0, NoiseTerrain);
    world.insert_chunk(Chunk::new_empty(coord));
    world
}

fn generate(seed: u64, coord: ChunkCoord) -> Chunk {
    WorldGenerator::new(seed).generate_chunk(coord, &NoiseTerrain.sample_chunk(seed, coord))
}

#[test]
fn setting_block_loads_missing_chunk() {
    let mut world = VoxelWorld::new(0, NoiseTerrain);
    let pos = BlockPos::new(0, 0, 0);

    world.set_block(pos, STONE_BLOCK);

    assert_eq!(world.get_block(pos), STONE_BLOCK);
    assert!(world.get_chunk(ChunkCoord::new(0, 0, 0)).is_some());
}

#[test]
fn inserting_existing_chunk_reports_no_change() {
    let coord = ChunkCoord::new(0, 0, 0);
    let mut world = world_with_empty_chunk(coord);

    assert!(!world.insert_chunk(Chunk::new_empty(coord)));
    assert_eq!(world.chunk_count(), 1);
}

#[test]
fn generated_chunk_uses_requested_seed_and_coord() {
    let coord = ChunkCoord::new(2, -1, 3);
    let chunk = VoxelWorld::new(123, NoiseTerrain).generate_chunk(coord);

    assert_eq!(chunk.coord(), coord);
    assert_eq!(VoxelWorld::new(123, NoiseTerrain).seed(), 123);
}

#[test]
fn streaming_loads_chunks_around_origin() {
    let mut world = VoxelWorld::new(0, NoiseTerrain);

    let first_update = world.load_chunks_around_origin(1);
    let second_update = world.load_chunks_around_origin(1);

    assert_eq!(first_update.center_chunk, ChunkCoord::new(0, 0, 0));
    assert_eq!(first_update.requested_loads, 27);
    assert_eq!(first_update.newly_loaded, 27);
    assert_eq!(first_update.total_loaded, 27);
    assert_eq!(second_update.requested_loads, 27);
    assert_eq!(second_update.newly_loaded, 0);
    assert_eq!(second_update.total_loaded, 27);
}

#[test]
fn streaming_loads_around_world_block_position() {
    let mut world = VoxelWorld::new(0, NoiseTerrain);
    let settings = WorldStreamingSettings::new(1, 0, 1, 1, 1, 2);

    let update = world.load_chunks_around_block(BlockPos::new(-1, 64, 33), settings);

    assert_eq!(update.center_chunk, ChunkCoord::new(-1, 2, 1));
    assert_eq!(update.requested_loads, 9);
    assert_eq!(update.newly_loaded, 9);
    assert!(world.get_chunk(ChunkCoord::new(-2, 2, 0)).is_some());
    assert!(world.get_chunk(ChunkCoord::new(0, 2, 2)).is_some());
    assert!(world.get_chunk(ChunkCoord::new(-1, 3, 1)).is_none());
}

#[test]
fn streaming_clamps_negative_load_radii_to_center_chunk() {
    let mut world = VoxelWorld::new(0, NoiseTerrain);
    let settings = WorldStreamingSettings::new(-4, -2, 0, 0, 0, 0);

    let update = world.load_chunks_around_chunk(ChunkCoord::new(3, -2, 1), settings);

    assert_eq!(update.center_chunk, ChunkCoord::new(3, -2, 1));
    assert_eq!(update.requested_loads, 1);
    assert_eq!(update.newly_loaded, 1);
    assert!(world.get_chunk(ChunkCoord::new(3, -2, 1)).is_some());
}

#[test]
fn editing_at_subchunk_boundary_marks_both_subchunks_dirty() {
    let coord = ChunkCoord::new(0, 0, 0);
    let mut world = world_with_empty_chunk(coord);

    world.set_block(BlockPos::new(15, 0, 0), STONE_BLOCK);

    let chunk = world.get_chunk(coord).expect("chunk exists");
    let expected_mask = subchunk_bit(0) | subchunk_bit(1);

    assert_eq!(chunk.subchunk_dirty_mask() & expected_mask, expected_mask);
}

#[test]
fn chunk_visible_mask_can_be_updated_after_meshing() {
    let coord = ChunkCoord::new(0, 0, 0);
    let mut world = world_with_empty_chunk(coord);

    assert!(world.set_chunk_visible_mask(coord, 0b0000_0101));
    assert!(!world.set_chunk_visible_mask(ChunkCoord::new(99, 0, 0), 0b1111_1111));

    let chunk = world.get_chunk(coord).expect("chunk exists");

    assert_eq!(chunk.subchunk_visible_mask(), 0b0000_0101);
}

#[test]
fn no_op_edit_does_not_mark_chunk_dirty() {
    let coord = ChunkCoord::new(0, 0, 0);
    let mut world = world_with_empty_chunk(coord);

    world.set_block(BlockPos::new(0, 0, 0), AIR_BLOCK);

    let chunk = world.get_chunk(coord).expect("chunk exists");

    assert_eq!(chunk.subchunk_dirty_mask(), 0);
    assert_eq!(chunk.revision(), 0);
}

#[test]
fn batch_edit_applies_multiple_changes_and_reports_summary() {
    let coord = ChunkCoord::new(0, 0, 0);
    let mut world = world_with_empty_chunk(coord);

    let summary = world.set_blocks(&[
        BlockEdit::new(BlockPos::new(0, 0, 0), STONE_BLOCK),
        BlockEdit::new(BlockPos::new(1, 0, 0), STONE_BLOCK),
        BlockEdit::new(BlockPos::new(2, 0, 0), AIR_BLOCK),
    ]);

    let chunk = world.get_chunk(coord).expect("chunk exists");

    assert_eq!(summary.requested_edits, 3);
    assert_eq!(summary.changed_blocks, 2);
    assert_eq!(world.get_block(BlockPos::new(0, 0, 0)), STONE_BLOCK);
    assert_eq!(world.get_block(BlockPos::new(1, 0, 0)), STONE_BLOCK);
    assert_eq!(chunk.solid_block_count(), 2);
    assert_eq!(chunk.revision(), 2);
}

#[test]
fn batch_edit_loads_all_target_chunks() {
    let mut world = VoxelWorld::new(0, NoiseTerrain);

    let summary = world.set_blocks(&[
        BlockEdit::new(BlockPos::new(0, 1024, 0), STONE_BLOCK),
        BlockEdit::new(BlockPos::new(32, 1024, 0), STONE_BLOCK),
    ]);

    assert_eq!(summary.changed_blocks, 2);
    assert_eq!(
        world.get_chunk(ChunkCoord::new(0, 32, 0)).unwrap().revision(),
        1
    );
    assert_eq!(
        world.get_chunk(ChunkCoord::new(1, 32, 0)).unwrap().revision(),
        1
    );
}

#[test]
fn editing_at_chunk_boundary_marks_loaded_neighbor_dirty() {
    let coord = ChunkCoord::new(0, 0, 0);
    let neighbor_coord = ChunkCoord::new(1, 0, 0);
    let mut world = world_with_empty_chunk(coord);
    world.insert_chunk(Chunk::new_empty(neighbor_coord));

    world.set_block(BlockPos::new(31, 0, 0), STONE_BLOCK);

    let neighbor = world
        .get_chunk(neighbor_coord)
        .expect("neighbor chunk exists");

    assert_eq!(
        neighbor.subchunk_dirty_mask() & subchunk_bit(0),
        subchunk_bit(0)
    );
}

#[test]
fn editing_at_chunk_boundary_does_not_load_neighbor_chunk() {
    let coord = ChunkCoord::new(0, 0, 0);
    let mut world = world_with_empty_chunk(coord);

    world.set_block(BlockPos::new(31, 0, 0), STONE_BLOCK);

    assert!(world.get_chunk(ChunkCoord::new(1, 0, 0)).is_none());
}

#[test]
fn batch_edit_marks_neighbor_loaded_by_same_batch_dirty() {
    let mut world = VoxelWorld::new(0, NoiseTerrain);

    world.set_blocks(&[
        BlockEdit::new(BlockPos::new(31, 1024, 0), STONE_BLOCK),
        BlockEdit::new(BlockPos::new(32, 1024, 0), STONE_BLOCK),
    ]);

    let origin = world.get_chunk(ChunkCoord::new(0, 32, 0)).unwrap();
    let neighbor = world.get_chunk(ChunkCoord::new(1, 32, 0)).unwrap();

    assert_eq!(
        origin.subchunk_dirty_mask() & subchunk_bit(1),
        subchunk_bit(1)
    );
    assert_eq!(
        neighbor.subchunk_dirty_mask() & subchunk_bit(0),
        subchunk_bit(0)
    );
}

#[test]
fn terrain_generation_supports_negative_chunk_coordinates() {
    let chunk = generate(12345, ChunkCoord::new(-1, -1, -1));

    assert_eq!(chunk.coord(), ChunkCoord::new(-1, -1, -1));
}

#[test]
fn terrain_generation_is_deterministic_for_same_seed() {
    let first = generate(12345, ChunkCoord::new(0, 0, 0));
    let second = generate(12345, ChunkCoord::new(0, 0, 0));

    for y in 0..CHUNK_SIZE {
        for z in 0..CHUNK_SIZE {
            for x in 0..CHUNK_SIZE {
                assert_eq!(
                    first.get_block(x, y, z),
                    second.get_block(x, y, z),
                    "block mismatch at {x}, {y}, {z}"
                );
            }
        }
    }
}

#[test]
fn terrain_generation_places_basic_ores() {
    let chunk = generate(12345, ChunkCoord::new(0, 0, 0));
    let mut coal_blocks = 0;
    let mut iron_blocks = 0;

    for y in 0..CHUNK_SIZE {
        for z in 0..CHUNK_SIZE {
            for x in 0..CHUNK_SIZE {
                match chunk.get_block(x, y, z) {
                    COAL_ORE_BLOCK => coal_blocks += 1,
                    IRON_ORE_BLOCK => iron_blocks += 1,
                    _ => {}
                }
            }
        }
    }

    assert!(coal_blocks > 0);
    assert!(iron_blocks > 0);
}

#[test]
fn terrain_generation_carves_underground_caves() {
    let chunk = generate(12345, ChunkCoord::new(0, 0, 0));
    let mut underground_air_blocks = 0;

    for y in 0..8 {
        for z in 0..CHUNK_SIZE {
            for x in 0..CHUNK_SIZE {
                if chunk.get_block(x, y, z) == AIR_BLOCK {
                    underground_air_blocks += 1;
                }
            }
        }
    }

    assert!(underground_air_blocks > 0);
}

#[test]
fn ore_rarity_thresholds_match_unit_interval_cutoffs() {
    for bits in 0..=u16::MAX {
        let unit = bits as f32 / 65535.0;
        assert_eq!(unit > 0.992, bits >= IRON_HASH_THRESHOLD, "iron cutoff at {bits}");
        assert_eq!(unit > 0.985, bits >= COAL_HASH_THRESHOLD, "coal cutoff at {bits}");
    }
}

#[test]
fn generated_columns_stack_grass_dirt_and_stone() {
    let seed = 7;
    let coord = ChunkCoord::new(0, 0, 0);
    let generator = WorldGenerator::new(seed);
    let samples = NoiseTerrain.sample_chunk(seed, coord);
    let chunk = generator.generate_chunk(coord, &samples);

    for z in 0..CHUNK_SIZE {
        for x in 0..CHUNK_SIZE {
            let column_top = (0..CHUNK_SIZE)
                .rev()
                .find(|&y| chunk.get_block(x, y, z) != AIR_BLOCK)
                .expect("the surface lies inside the bottom chunk");
            let height = column_top as i32;
            assert_eq!(chunk.get_block(x, column_top, z), GRASS_BLOCK);
            assert!((16..=28).contains(&height));
            for y in (height - 4)..height {
                assert_eq!(chunk.get_block(x, y as usize, z), DIRT_BLOCK);
            }
        }
    }
}

#[test]
fn read_after_write_returns_written_block_and_keeps_others() {
    let mut world = VoxelWorld::new(3, NoiseTerrain);
    let before = world.get_block(BlockPos::new(5, 5, 5));
    let pos = BlockPos::new(-40, 12, 70);

    world.set_block(pos, IRON_ORE_BLOCK);
    let stored = world.get_block(pos);
    let neighbor = world.get_block(BlockPos::new(-41, 12, 70));
    world.set_block(pos, COAL_ORE_BLOCK);

    assert_eq!(before, AIR_BLOCK);
    assert_eq!(stored, IRON_ORE_BLOCK);
    assert_eq!(world.get_block(pos), COAL_ORE_BLOCK);
    assert_eq!(world.get_block(BlockPos::new(-41, 12, 70)), neighbor);
}

#[test]
fn last_edit_of_a_batch_wins() {
    let coord = ChunkCoord::new(0, 0, 0);
    let mut world = world_with_empty_chunk(coord);
    let pos = BlockPos::new(3, 3, 3);

    let summary = world.set_blocks(&[
        BlockEdit::new(pos, STONE_BLOCK),
        BlockEdit::new(pos, COAL_ORE_BLOCK),
        BlockEdit::new(pos, IRON_ORE_BLOCK),
    ]);

    assert_eq!(world.get_block(pos), IRON_ORE_BLOCK);
    assert_eq!(summary.changed_blocks, 3);
}

#[test]
fn removed_chunk_is_gone_and_others_stay() {
    let mut world = world_with_empty_chunk(ChunkCoord::new(0, 0, 0));
    world.insert_chunk(Chunk::new_empty(ChunkCoord::new(0, 1, 0)));

    let removed = world.remove_chunk(ChunkCoord::new(0, 0, 0));

    assert!(removed.is_some());
    assert!(world.remove_chunk(ChunkCoord::new(0, 0, 0)).is_none());
    assert!(world.contains_chunk(ChunkCoord::new(0, 1, 0)));
    assert_eq!(world.chunk_count(), 1);
}

#[test]
fn marking_all_subchunks_dirty_sets_every_bit() {
    let coord = ChunkCoord::new(0, 0, 0);
    let mut world = world_with_empty_chunk(coord);

    assert!(world.mark_all_subchunks_dirty(coord));
    assert!(!world.mark_all_subchunks_dirty(ChunkCoord::new(5, 5, 5)));
    assert_eq!(world.get_chunk(coord).unwrap().subchunk_dirty_mask(), 0xFF);
    assert!(world.clear_chunk_dirty(coord));
    assert_eq!(world.get_chunk(coord).unwrap().subchunk_dirty_mask(), 0);
}

#[test]
fn chunk_can_be_changed_in_place() {
    let coord = ChunkCoord::new(0, 0, 0);
    let mut world = world_with_empty_chunk(coord);
    world.set_block(BlockPos::new(1, 1, 1), STONE_BLOCK);

    world.get_chunk_mut(coord).unwrap().clear_dirty();

    assert_eq!(world.get_chunk(coord).unwrap().subchunk_dirty_mask(), 0);
    assert!(world.get_chunk_mut(ChunkCoord::new(9, 9, 9)).is_none());
}

#[test]
fn loaded_chunk_coords_are_in_y_z_x_order() {
    let mut world = VoxelWorld::new(0, NoiseTerrain);
    for coord in [
        ChunkCoord::new(1, 0, 0),
        ChunkCoord::new(0, 1, 0),
        ChunkCoord::new(0, 0, 1),
        ChunkCoord::new(-1, 0, 0),
    ] {
        world.insert_chunk(Chunk::new_empty(coord));
    }

    assert_eq!(
        world.loaded_chunk_coords(),
        vec![
            ChunkCoord::new(-1, 0, 0),
            ChunkCoord::new(1, 0, 0),
            ChunkCoord::new(0, 0, 1),
            ChunkCoord::new(0, 1, 0),
        ]
    );
}

#[test]
fn generated_chunk_matches_chunk_volume() {
    let chunk = generate(1, ChunkCoord::new(0, -1, 0));
    assert_eq!(chunk.blocks().len(), CHUNK_VOLUME);
    assert_eq!(chunk.solid_block_count(), CHUNK_VOLUME as u32 - chunk.blocks().iter().filter(|b| **b == AIR_BLOCK).count() as u32);
}
