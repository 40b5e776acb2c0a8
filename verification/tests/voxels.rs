use adventure_quest::block_config::{
    atlas_cell_for_index, block_has_hotbar_texture, block_has_texture, block_is_opaque,
    block_label, block_texture_index, hotbar_cell_for_index, CubeFace,
    BLOCK_TEXTURE_ATLAS_COLUMNS, BLOCK_TEXTURE_ATLAS_ROWS, COAL_ORE_TEXTURE_INDEX,
    DIRT_TEXTURE_INDEX, GRASS_TEXTURE_INDEX, IRON_ORE_TEXTURE_INDEX, STONE_TEXTURE_INDEX,
};
use adventure_quest::coords::ChunkCoord;
use adventure_quest::voxels::{
    block_index, subchunk_bit, subchunk_index, world_to_chunk_coord, world_to_local_block, Chunk,
    AIR_BLOCK, CHUNK_VOLUME, COAL_ORE_BLOCK, DIRT_BLOCK, GRASS_BLOCK, IRON_ORE_BLOCK, STONE_BLOCK,
};

const BLOCK_TEXTURE_WIDTH_PX: f32 = 24.0;
const BLOCK_TEXTURE_HEIGHT_PX: f32 = 32.0;

/// Texture bounds of an atlas texture index, from its atlas cell.
fn texture_bounds(index: usize) -> ([f32; 2], [f32; 2]) {
    let (column, row) = atlas_cell_for_index(index);
    let atlas_width = BLOCK_TEXTURE_WIDTH_PX * BLOCK_TEXTURE_ATLAS_COLUMNS as f32;
    let atlas_height = BLOCK_TEXTURE_HEIGHT_PX * BLOCK_TEXTURE_ATLAS_ROWS as f32;

    (
        [
            column as f32 * BLOCK_TEXTURE_WIDTH_PX / atlas_width,
            row as f32 * BLOCK_TEXTURE_HEIGHT_PX / atlas_height,
        ],
        [
            BLOCK_TEXTURE_WIDTH_PX / atlas_width,
            BLOCK_TEXTURE_HEIGHT_PX / atlas_height,
        ],
    )
}

#[test]
fn negative_world_coordinates_convert_correctly() {
    let coord = world_to_chunk_coord(-1, -1, -1);
    assert_eq!(coord, ChunkCoord::new(-1, -1, -1));

    let local = world_to_local_block(-1, -1, -1);
    assert_eq!(local, (31, 31, 31));
}

#[test]
fn setting_block_updates_masks() {
    let mut chunk = Chunk::new_empty(ChunkCoord::new(0, 0, 0));

    chunk.set_block(0, 0, 0, STONE_BLOCK);

    assert_eq!(chunk.solid_block_count(), 1);
    assert_eq!(chunk.subchunk_solid_counts()[0], 1);
    assert_eq!(chunk.subchunk_occupancy_mask(), 1);
    assert_eq!(chunk.subchunk_dirty_mask(), 1);
    assert_eq!(chunk.revision(), 1);
}

#[test]
fn removing_block_updates_masks() {
    let mut chunk = Chunk::new_empty(ChunkCoord::new(0, 0, 0));

    chunk.set_block(0, 0, 0, STONE_BLOCK);
    chunk.set_block(0, 0, 0, AIR_BLOCK);

    assert_eq!(chunk.solid_block_count(), 0);
    assert_eq!(chunk.subchunk_solid_counts()[0], 0);
    assert_eq!(chunk.subchunk_occupancy_mask(), 0);
    assert_eq!(chunk.revision(), 2);
}

#[test]
fn block_texture_indices_map_to_expected_pixel_columns() {
    let dirt = texture_bounds(DIRT_TEXTURE_INDEX);
    let grass = texture_bounds(GRASS_TEXTURE_INDEX);
    let stone = texture_bounds(STONE_TEXTURE_INDEX);
    let coal = texture_bounds(COAL_ORE_TEXTURE_INDEX);
    let iron = texture_bounds(IRON_ORE_TEXTURE_INDEX);

    assert!((dirt.0[0] - 0.0).abs() < 0.0001);
    assert!((grass.0[0] - 0.2).abs() < 0.0001);
    assert!((stone.0[0] - 0.4).abs() < 0.0001);
    assert!((coal.0[0] - 0.6).abs() < 0.0001);
    assert!((iron.0[0] - 0.8).abs() < 0.0001);
    assert!((dirt.0[1] - 0.0).abs() < 0.0001);

    assert!((dirt.1[0] - 0.2).abs() < 0.0001);
    assert!((dirt.1[1] - 0.5).abs() < 0.0001);
}

#[test]
fn block_labels_come_from_the_block_table() {
    assert_eq!(block_label(AIR_BLOCK), "EMPTY");
    assert_eq!(block_label(DIRT_BLOCK), "DIRT");
    assert_eq!(block_label(GRASS_BLOCK), "GRASS");
    assert_eq!(block_label(STONE_BLOCK), "STONE");
    assert_eq!(block_label(COAL_ORE_BLOCK), "COAL ORE");
    assert_eq!(block_label(IRON_ORE_BLOCK), "IRON ORE");
    assert_eq!(block_label(65000), "UNKNOWN");
}

#[test]
fn only_air_lets_light_through() {
    assert!(!block_is_opaque(AIR_BLOCK));
    assert!(block_is_opaque(GRASS_BLOCK));
    assert!(block_is_opaque(STONE_BLOCK));
    assert!(block_is_opaque(65000));
}

#[test]
fn textured_blocks_are_the_solid_known_ones() {
    assert!(!block_has_texture(AIR_BLOCK));
    assert!(!block_has_hotbar_texture(AIR_BLOCK));
    assert!(block_has_texture(STONE_BLOCK));
    assert!(block_has_hotbar_texture(STONE_BLOCK));
    assert!(!block_has_texture(65000));
    assert_eq!(block_texture_index(DIRT_BLOCK), Some(DIRT_TEXTURE_INDEX));
    assert_eq!(block_texture_index(IRON_ORE_BLOCK), Some(IRON_ORE_TEXTURE_INDEX));
    assert_eq!(block_texture_index(AIR_BLOCK), None);
}

#[test]
fn atlas_cells_fill_rows_and_hotbar_uses_second_row() {
    assert_eq!(atlas_cell_for_index(3), (3, 0));
    assert_eq!(atlas_cell_for_index(7), (2, 1));
    assert_eq!(hotbar_cell_for_index(STONE_TEXTURE_INDEX), (2, 1));
}

#[test]
fn cube_faces_use_cross_tiles() {
    assert_eq!(CubeFace::PosY.cross_tile(), (1, 0));
    assert_eq!(CubeFace::NegX.cross_tile(), (0, 1));
    assert_eq!(CubeFace::PosZ.cross_tile(), (1, 1));
    assert_eq!(CubeFace::PosX.cross_tile(), (2, 1));
    assert_eq!(CubeFace::NegY.cross_tile(), (1, 2));
    assert_eq!(CubeFace::NegZ.cross_tile(), (1, 3));
}

#[test]
fn block_and_subchunk_indices_follow_the_flat_layout() {
    assert_eq!(block_index(0, 0, 0), 0);
    assert_eq!(block_index(1, 2, 3), 1 + 3 * 32 + 2 * 1024);
    assert_eq!(block_index(31, 31, 31), CHUNK_VOLUME - 1);
    assert_eq!(subchunk_index(15, 15, 15), 0);
    assert_eq!(subchunk_index(16, 0, 0), 1);
    assert_eq!(subchunk_index(0, 16, 0), 2);
    assert_eq!(subchunk_index(0, 0, 16), 4);
    assert_eq!(subchunk_index(31, 31, 31), 7);
    assert_eq!(subchunk_bit(0), 1);
    assert_eq!(subchunk_bit(7), 0b1000_0000);
}

#[test]
fn world_coordinates_split_into_chunk_and_local_position() {
    for v in [-65, -64, -33, -32, -31, -1, 0, 1, 31, 32, 33, 64, 1000] {
        let coord = world_to_chunk_coord(v, v, v);
        let local = world_to_local_block(v, v, v);
        assert!(local.0 < 32);
        assert_eq!(coord.x * 32 + local.0 as i32, v);
        assert_eq!(coord.y * 32 + local.1 as i32, v);
        assert_eq!(coord.z * 32 + local.2 as i32, v);
    }
}

#[test]
fn chunk_from_blocks_counts_solid_blocks() {
    let mut blocks = vec![AIR_BLOCK; CHUNK_VOLUME];
    blocks[block_index(0, 0, 0)] = STONE_BLOCK;
    blocks[block_index(31, 31, 31)] = DIRT_BLOCK;
    let chunk = Chunk::from_blocks(ChunkCoord::new(1, 2, 3), blocks, 7);

    assert_eq!(chunk.solid_block_count(), 2);
    assert_eq!(chunk.subchunk_occupancy_mask(), 0b1000_0001);
    assert_eq!(chunk.subchunk_dirty_mask(), 0);
    assert_eq!(chunk.revision(), 7);
    assert_eq!(chunk.get_block(31, 31, 31), DIRT_BLOCK);
    assert!(!chunk.is_subchunk_empty(0));
    assert!(chunk.is_subchunk_empty(1));
}

#[test]
fn full_subchunk_is_marked_full() {
    let chunk = Chunk::from_blocks(ChunkCoord::new(0, 0, 0), vec![STONE_BLOCK; CHUNK_VOLUME], 0);

    assert_eq!(chunk.subchunk_full_solid_mask(), 0xFF);
    assert!(chunk.is_subchunk_full(3));
    assert_eq!(chunk.solid_block_count(), CHUNK_VOLUME as u32);
}

#[test]
fn unchanged_block_edit_reports_no_change() {
    let mut chunk = Chunk::new_empty(ChunkCoord::new(0, 0, 0));

    assert!(!chunk.set_block(4, 4, 4, AIR_BLOCK));
    assert_eq!(chunk.revision(), 0);
    assert_eq!(chunk.subchunk_dirty_mask(), 0);
    assert!(chunk.set_block(4, 4, 4, STONE_BLOCK));
    chunk.clear_dirty();
    assert_eq!(chunk.subchunk_dirty_mask(), 0);
}
