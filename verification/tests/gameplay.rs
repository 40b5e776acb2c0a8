use adventure_quest::coords::{BlockPos, ChunkCoord};
use adventure_quest::gameplay::{
    break_target_block, place_block_from_selection, place_selected_block, BlockHit,
    BlockInteraction, Hotbar, HOTBAR_SLOT_COUNT,
};
use adventure_quest::terrain::{TerrainSamples, TerrainSource};
use adventure_quest::voxels::{
    world_to_chunk_coord, world_to_local_block, BlockId, Chunk, AIR_BLOCK, CHUNK_VOLUME,
    DIRT_BLOCK, GRASS_BLOCK, STONE_BLOCK,
};
use adventure_quest::world::VoxelWorld;

/// Flat terrain without caves; these tests place their own blocks.
struct FlatTerrain;

impl TerrainSource for FlatTerrain {
    fn sample_chunk(&self, _seed: u64, _coord: ChunkCoord) -> TerrainSamples {
        TerrainSamples::new(vec![0; 1024], vec![false; CHUNK_VOLUME]).unwrap()
    }
}

fn world_with_empty_chunk(coord: ChunkCoord) -> VoxelWorld<FlatTerrain> {
    let mut world = VoxelWorld::new(0, FlatTerrain);
    world.insert_chunk(Chunk::new_empty(coord));
    world
}

/// The hit a ray from the middle of block (0, 0, 0) along +x reports on `world_block`.
fn hit_from_west(world_block: BlockPos, block_id: BlockId, face_normal: [i32; 3]) -> BlockHit {
    BlockHit {
        world_block,
        chunk_coord: world_to_chunk_coord(world_block.x, world_block.y, world_block.z),
        local_block: world_to_local_block(world_block.x, world_block.y, world_block.z),
        block_id,
        face_normal,
    }
}

#[test]
fn hotbar_selects_and_sets_slots() {
    let mut hotbar = Hotbar::starter();

    assert_eq!(hotbar.selected_slot(), 0);
    assert_eq!(hotbar.selected_block(), DIRT_BLOCK);
    assert!(hotbar.select_slot(2));
    assert_eq!(hotbar.selected_block(), STONE_BLOCK);
    assert!(hotbar.set_slot(2, GRASS_BLOCK));
    assert_eq!(hotbar.selected_block(), GRASS_BLOCK);
    assert!(!hotbar.select_slot(HOTBAR_SLOT_COUNT));
    assert!(!hotbar.set_slot(HOTBAR_SLOT_COUNT, STONE_BLOCK));
}

#[test]
fn break_target_block_sets_hit_block_to_air() {
    let coord = ChunkCoord::new(0, 0, 0);
    let mut world = world_with_empty_chunk(coord);
    world.set_block(BlockPos::new(3, 0, 0), STONE_BLOCK);

    let target = hit_from_west(BlockPos::new(3, 0, 0), STONE_BLOCK, [-1, 0, 0]);
    let result = break_target_block(&mut world, Some(target));

    let BlockInteraction::Break { hit, summary } = result else {
        panic!("expected break interaction");
    };

    assert_eq!(hit.world_block, BlockPos::new(3, 0, 0));
    assert_eq!(summary.changed_blocks, 1);
    assert_eq!(world.get_block(BlockPos::new(3, 0, 0)), AIR_BLOCK);
}

#[test]
fn break_target_block_misses_when_ray_hits_nothing() {
    let mut world = world_with_empty_chunk(ChunkCoord::new(0, 0, 0));

    let result = break_target_block(&mut world, None);

    assert!(matches!(result, BlockInteraction::Miss));
}

#[test]
fn place_selected_block_uses_hotbar_block_against_hit_face() {
    let coord = ChunkCoord::new(0, 0, 0);
    let mut world = world_with_empty_chunk(coord);
    world.set_block(BlockPos::new(3, 0, 0), STONE_BLOCK);

    let mut hotbar = Hotbar::starter();
    hotbar.select_slot(1);

    let target = hit_from_west(BlockPos::new(3, 0, 0), STONE_BLOCK, [-1, 0, 0]);
    let result = place_selected_block(&mut world, &hotbar, Some(target));

    let BlockInteraction::Place {
        placed_block,
        block,
        summary,
        ..
    } = result
    else {
        panic!("expected place interaction");
    };

    assert_eq!(placed_block, BlockPos::new(2, 0, 0));
    assert_eq!(block, GRASS_BLOCK);
    assert_eq!(summary.changed_blocks, 1);
    assert_eq!(world.get_block(placed_block), GRASS_BLOCK);
}

#[test]
fn place_selected_block_rejects_air_slot() {
    let coord = ChunkCoord::new(0, 0, 0);
    let mut world = world_with_empty_chunk(coord);
    world.set_block(BlockPos::new(3, 0, 0), STONE_BLOCK);

    let mut hotbar = Hotbar::starter();
    hotbar.select_slot(3);

    let target = hit_from_west(BlockPos::new(3, 0, 0), STONE_BLOCK, [-1, 0, 0]);
    let result = place_selected_block(&mut world, &hotbar, Some(target));

    assert!(matches!(result, BlockInteraction::NoPlaceableBlockSelected));
    assert_eq!(world.get_block(BlockPos::new(2, 0, 0)), AIR_BLOCK);
}

#[test]
fn place_selected_block_rejects_origin_inside_hit_block() {
    let coord = ChunkCoord::new(0, 0, 0);
    let mut world = world_with_empty_chunk(coord);
    world.set_block(BlockPos::new(0, 0, 0), STONE_BLOCK);

    let hotbar = Hotbar::starter();

    let target = hit_from_west(BlockPos::new(0, 0, 0), STONE_BLOCK, [0, 0, 0]);
    let result = place_selected_block(&mut world, &hotbar, Some(target));

    assert!(matches!(
        result,
        BlockInteraction::InvalidPlacementFace { .. }
    ));
    assert_eq!(world.get_block(BlockPos::new(0, 0, 0)), STONE_BLOCK);
}

#[test]
fn placing_on_a_miss_changes_nothing() {
    let coord = ChunkCoord::new(0, 0, 0);
    let mut world = world_with_empty_chunk(coord);

    let result = place_block_from_selection(&mut world, STONE_BLOCK, None);

    assert!(matches!(result, BlockInteraction::Miss));
    assert_eq!(world.chunk_count(), 1);
    assert_eq!(world.get_chunk(coord).unwrap().revision(), 0);
}

#[test]
fn placing_the_block_already_there_reports_no_change() {
    let coord = ChunkCoord::new(0, 0, 0);
    let mut world = world_with_empty_chunk(coord);
    world.set_block(BlockPos::new(5, 5, 5), STONE_BLOCK);
    world.set_block(BlockPos::new(5, 6, 5), DIRT_BLOCK);

    let target = hit_from_west(BlockPos::new(5, 5, 5), STONE_BLOCK, [0, 1, 0]);
    let result = place_block_from_selection(&mut world, DIRT_BLOCK, Some(target));

    let BlockInteraction::Place { placed_block, summary, .. } = result else {
        panic!("expected place interaction");
    };
    assert_eq!(placed_block, BlockPos::new(5, 6, 5));
    assert_eq!(summary.requested_edits, 1);
    assert_eq!(summary.changed_blocks, 0);
}

#[test]
fn placement_block_lies_across_the_hit_face() {
    let hit = hit_from_west(BlockPos::new(-1, 10, 4), STONE_BLOCK, [0, 0, -1]);

    assert_eq!(hit.placement_block(), BlockPos::new(-1, 10, 3));
}

#[test]
fn hotbar_starts_with_dirt_grass_and_stone() {
    let hotbar = Hotbar::starter();
    let slots = hotbar.slots();

    assert_eq!(slots[..3], [DIRT_BLOCK, GRASS_BLOCK, STONE_BLOCK]);
    assert!(slots[3..].iter().all(|b| *b == AIR_BLOCK));
    let custom = Hotbar::new([STONE_BLOCK; HOTBAR_SLOT_COUNT]);
    assert_eq!(custom.selected_slot(), 0);
    assert_eq!(custom.selected_block(), STONE_BLOCK);
}
