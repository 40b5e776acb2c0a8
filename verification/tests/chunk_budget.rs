use adventure_quest::chunk_budget::{
    chunk_is_visible_render_candidate, chunk_render_priority_key, prune_loaded_chunks,
    sync_render_radius, SightedChunk, MAX_ACTIVE_WORLD_CHUNKS,
};
use adventure_quest::client::DirtyMeshQueue;
use adventure_quest::ordering::ChunkPriority;
use adventure_quest::voxels::STONE_BLOCK;
use adventure_quest::world::WorldStreamingSettings;
use adventure_quest::coords::ChunkCoord;
use adventure_quest::terrain::{TerrainSamples, TerrainSource};
use adventure_quest::voxels::{Chunk, CHUNK_VOLUME};
use adventure_quest::world::VoxelWorld;

struct FlatTerrain;

impl TerrainSource for FlatTerrain {
    fn sample_chunk(&self, _seed: u64, _coord: ChunkCoord) -> TerrainSamples {
        TerrainSamples::new(vec![0; 1024], vec![false; CHUNK_VOLUME]).unwrap()
    }
}

fn world_with(coords: &[ChunkCoord]) -> VoxelWorld<FlatTerrain> {
    let mut world = VoxelWorld::new(0, FlatTerrain);
    for &coord in coords {
        world.insert_chunk(Chunk::new_empty(coord));
    }
    world
}

fn row(n: i32) -> Vec<ChunkCoord> {
    (0..n).map(|x| ChunkCoord::new(x, 0, 0)).collect()
}

#[test]
fn world_within_budget_is_left_alone() {
    let mut world = world_with(&row(5));
    let removed = prune_loaded_chunks(&mut world, ChunkCoord::new(0, 0, 0), &Vec::new(), 5);
    assert!(removed.is_empty());
    assert_eq!(world.chunk_count(), 5);
    assert_eq!(MAX_ACTIVE_WORLD_CHUNKS, 640);
}

#[test]
fn farthest_chunks_are_unloaded_first() {
    let mut world = world_with(&row(6));
    let removed = prune_loaded_chunks(&mut world, ChunkCoord::new(0, 0, 0), &Vec::new(), 4);
    assert_eq!(removed, vec![ChunkCoord::new(5, 0, 0), ChunkCoord::new(4, 0, 0)]);
    assert_eq!(world.chunk_count(), 4);
    assert!(!world.contains_chunk(ChunkCoord::new(5, 0, 0)));
    assert!(world.contains_chunk(ChunkCoord::new(3, 0, 0)));
}

#[test]
fn modified_chunks_are_never_unloaded() {
    let mut world = world_with(&row(6));
    let modified = vec![ChunkCoord::new(5, 0, 0)];
    let removed = prune_loaded_chunks(&mut world, ChunkCoord::new(0, 0, 0), &modified, 4);
    assert_eq!(removed, vec![ChunkCoord::new(4, 0, 0), ChunkCoord::new(3, 0, 0)]);
    assert!(world.contains_chunk(ChunkCoord::new(5, 0, 0)));
}

#[test]
fn pruning_stops_when_only_modified_chunks_remain() {
    let mut world = world_with(&row(4));
    let modified = row(3);
    let removed = prune_loaded_chunks(&mut world, ChunkCoord::new(0, 0, 0), &modified, 1);
    assert_eq!(removed, vec![ChunkCoord::new(3, 0, 0)]);
    assert_eq!(world.chunk_count(), 3);
}

#[test]
fn equal_distances_unload_by_y_then_z_then_x() {
    let coords = [
        ChunkCoord::new(1, 0, 0),
        ChunkCoord::new(-1, 0, 0),
        ChunkCoord::new(0, 0, 1),
        ChunkCoord::new(0, -1, 0),
        ChunkCoord::new(0, 0, 0),
    ];
    let mut world = world_with(&coords);
    let removed = prune_loaded_chunks(&mut world, ChunkCoord::new(0, 0, 0), &Vec::new(), 2);
    assert_eq!(
        removed,
        vec![ChunkCoord::new(0, -1, 0), ChunkCoord::new(-1, 0, 0), ChunkCoord::new(1, 0, 0)]
    );
}

fn chunk_with_block(coord: ChunkCoord) -> Chunk {
    let mut chunk = Chunk::new_empty(coord);
    chunk.set_block(0, 0, 0, STONE_BLOCK);
    chunk.clear_dirty();
    chunk
}

fn sighted(coord: ChunkCoord, visible: bool, depth_key: i32) -> SightedChunk {
    SightedChunk { coord, visible, depth_key }
}

#[test]
fn render_priority_ranks_visible_candidates_first() {
    let center = ChunkCoord::new(0, 0, 0);
    let mut world = VoxelWorld::new(0, FlatTerrain);
    world.insert_chunk(chunk_with_block(ChunkCoord::new(1, 0, 0)));
    world.insert_chunk(Chunk::new_empty(ChunkCoord::new(2, 0, 0)));
    let settings = WorldStreamingSettings::new(8, 8, 8, 8, 8, 9);

    let visible = sighted(ChunkCoord::new(1, 0, 0), true, 7);
    assert_eq!(
        chunk_render_priority_key(&world, center, visible, settings),
        ChunkPriority { rank: 0, depth: 7, distance: 1, y: 0, z: 0, x: 1 }
    );
    let hidden = sighted(ChunkCoord::new(1, 0, 0), false, 7);
    assert_eq!(chunk_render_priority_key(&world, center, hidden, settings).rank, 1);
    let empty = sighted(ChunkCoord::new(2, 0, 0), true, 3);
    assert_eq!(chunk_render_priority_key(&world, center, empty, settings).rank, 2);

    assert!(chunk_is_visible_render_candidate(&world, center, visible, settings));
    assert!(!chunk_is_visible_render_candidate(&world, center, hidden, settings));
    assert!(!chunk_is_visible_render_candidate(&world, center, empty, settings));
}

#[test]
fn render_sync_drops_stale_meshes_and_queues_nearest_visible_chunks() {
    let center = ChunkCoord::new(0, 0, 0);
    let a = ChunkCoord::new(0, 0, 0);
    let b = ChunkCoord::new(1, 0, 0);
    let e = ChunkCoord::new(0, 0, 1);
    let hidden = ChunkCoord::new(-1, 0, 0);
    let empty = ChunkCoord::new(2, 0, 0);
    let far = ChunkCoord::new(20, 0, 0);

    let mut world = VoxelWorld::new(0, FlatTerrain);
    for coord in [a, b, e, hidden, far] {
        world.insert_chunk(chunk_with_block(coord));
    }
    world.insert_chunk(Chunk::new_empty(empty));
    let settings = WorldStreamingSettings::new(8, 8, 8, 8, 8, 9);
    let mut queue = DirtyMeshQueue::new();

    let rendered = [sighted(far, true, 0), sighted(a, true, 0)];
    let loaded = [
        sighted(a, true, 0),
        sighted(e, true, 10),
        sighted(b, true, 5),
        sighted(hidden, false, 1),
        sighted(empty, true, 1),
        sighted(far, true, 1),
    ];

    let sync = sync_render_radius(&mut world, &mut queue, center, settings, &rendered, &loaded);

    assert_eq!(sync.removed_meshes, vec![far]);
    assert_eq!(sync.queued, vec![b, e]);
    assert_eq!(queue.pending(), &[b, e]);
    assert!(queue.needs_priority_sort());
    assert_eq!(world.get_chunk(b).unwrap().subchunk_dirty_mask(), 0xFF);
    assert_eq!(world.get_chunk(e).unwrap().subchunk_dirty_mask(), 0xFF);
    assert_eq!(world.get_chunk(hidden).unwrap().subchunk_dirty_mask(), 0);
}

#[test]
fn render_sync_queues_nothing_when_the_dirty_queue_is_backed_up() {
    let center = ChunkCoord::new(0, 0, 0);
    let b = ChunkCoord::new(1, 0, 0);
    let mut world = VoxelWorld::new(0, FlatTerrain);
    world.insert_chunk(chunk_with_block(b));
    let settings = WorldStreamingSettings::new(8, 8, 8, 8, 8, 9);
    let mut queue = DirtyMeshQueue::new();
    for x in 100..164 {
        queue.enqueue(ChunkCoord::new(x, 0, 0));
    }

    let sync = sync_render_radius(&mut world, &mut queue, center, settings, &[], &[sighted(b, true, 0)]);

    assert!(sync.queued.is_empty());
    assert_eq!(queue.pending_count(), 64);
    assert_eq!(world.get_chunk(b).unwrap().subchunk_dirty_mask(), 0);
}
