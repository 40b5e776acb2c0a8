use adventure_quest::chunk_budget::SightedChunk;
use adventure_quest::client::DirtyMeshQueue;
use adventure_quest::coords::ChunkCoord;
use adventure_quest::jobs::{ChunkJobTracker, MeshJobPriority, MeshResultAction};
use adventure_quest::terrain::{TerrainSamples, TerrainSource};
use adventure_quest::voxels::{Chunk, CHUNK_VOLUME, STONE_BLOCK};
use adventure_quest::world::WorldStreamingSettings;
use adventure_quest::world_load::{WorldLoadPhase, WorldLoadState};

struct FlatTerrain;

impl TerrainSource for FlatTerrain {
    fn sample_chunk(&self, _seed: u64, _coord: ChunkCoord) -> TerrainSamples {
        TerrainSamples::new(vec![0; 1024], vec![false; CHUNK_VOLUME]).unwrap()
    }
}

fn chunk_with_block(coord: ChunkCoord) -> Chunk {
    let mut chunk = Chunk::new_empty(coord);
    chunk.set_block(0, 0, 0, STONE_BLOCK);
    chunk.clear_dirty();
    chunk
}

fn sights(coords: &[ChunkCoord], visible: &[bool]) -> Vec<SightedChunk> {
    coords
        .iter()
        .zip(visible)
        .enumerate()
        .map(|(i, (&coord, &visible))| SightedChunk { coord, visible, depth_key: i as i32 })
        .collect()
}

#[test]
fn loading_generates_coordinates_in_order_preferring_saved_chunks() {
    let a = ChunkCoord::new(0, 0, 0);
    let b = ChunkCoord::new(1, 0, 0);
    let mut load = WorldLoadState::new(7, FlatTerrain, vec![a, b]);
    assert_eq!(load.phase(), WorldLoadPhase::Generating);
    assert_eq!(load.next_generation_coord(), Some(a));

    load.generate_next(Some(chunk_with_block(a)));
    assert_eq!(load.generated_chunks(), 1);
    assert_eq!(load.world().get_chunk(a).unwrap().solid_block_count(), 1);
    assert!(!load.is_generation_complete());

    assert_eq!(load.next_generation_coord(), Some(b));
    load.generate_next(None);
    assert!(load.world().contains_chunk(b));
    assert!(load.is_generation_complete());
    assert_eq!(load.next_generation_coord(), None);

    load.generate_next(None);
    assert_eq!(load.generated_chunks(), 2);
    assert_eq!(load.chunk_total(), 2);
    assert_eq!(load.world().seed(), 7);
}

#[test]
fn loading_meshes_visible_candidates_alternating_workers() {
    let a = ChunkCoord::new(0, 0, 0);
    let b = ChunkCoord::new(1, 0, 0);
    let c = ChunkCoord::new(2, 0, 0);
    let coords = vec![a, b, c];
    let mut load = WorldLoadState::new(0, FlatTerrain, coords.clone());
    load.generate_next(Some(chunk_with_block(a)));
    load.generate_next(Some(chunk_with_block(b)));
    load.generate_next(Some(Chunk::new_empty(c)));

    let settings = WorldStreamingSettings::new(8, 8, 8, 8, 8, 9);
    load.start_meshing(a, settings, &sights(&coords, &[true, true, true]));
    assert!(load.meshing_started());
    assert_eq!(load.phase(), WorldLoadPhase::Meshing);
    assert_eq!(load.mesh_target_chunks(), 2);

    let mut jobs = ChunkJobTracker::new();
    let (first, priority) = load.next_mesh_job(&mut jobs, 4).expect("a job");
    assert_eq!((first.coord, priority), (a, MeshJobPriority::Normal));
    load.mesh_job_sent();
    let (second, priority) = load.next_mesh_job(&mut jobs, 4).expect("a job");
    assert_eq!((second.coord, priority), (b, MeshJobPriority::Priority));
    load.mesh_job_sent();
    assert!(load.next_mesh_job(&mut jobs, 4).is_none());
    assert_eq!(jobs.mesh_pending_count(), 2);

    let mut queue = DirtyMeshQueue::new();
    assert!(!load.is_complete(&jobs));
    assert_eq!(load.take_mesh_result(&mut queue, a, first.revision, 1), MeshResultAction::Upload);
    jobs.release_mesh(a, MeshJobPriority::Normal);
    assert_eq!(load.take_mesh_result(&mut queue, b, second.revision, 1), MeshResultAction::Upload);
    jobs.release_mesh(b, MeshJobPriority::Priority);
    assert_eq!(load.mesh_results(), 2);
    assert!(load.is_complete(&jobs));

    let world = load.into_world();
    assert_eq!(world.get_chunk(a).unwrap().subchunk_visible_mask(), 1);
    assert_eq!(world.chunk_count(), 3);
}

#[test]
fn loading_meshes_hidden_candidates_when_none_is_in_view() {
    let a = ChunkCoord::new(0, 0, 0);
    let coords = vec![a];
    let mut load = WorldLoadState::new(0, FlatTerrain, coords.clone());
    load.generate_next(Some(chunk_with_block(a)));
    let settings = WorldStreamingSettings::new(8, 8, 8, 8, 8, 9);
    load.start_meshing(a, settings, &sights(&coords, &[false]));
    assert_eq!(load.mesh_target_chunks(), 1);
}

#[test]
fn loading_waits_while_mesh_jobs_are_full_and_failed_sends_lower_the_target() {
    let a = ChunkCoord::new(0, 0, 0);
    let coords = vec![a];
    let mut load = WorldLoadState::new(0, FlatTerrain, coords.clone());
    load.generate_next(Some(chunk_with_block(a)));
    let settings = WorldStreamingSettings::new(8, 8, 8, 8, 8, 9);
    load.start_meshing(a, settings, &sights(&coords, &[true]));

    let mut jobs = ChunkJobTracker::new();
    jobs.reserve_mesh(ChunkCoord::new(9, 9, 9), MeshJobPriority::Normal);
    assert!(load.next_mesh_job(&mut jobs, 1).is_none());
    assert_eq!(load.mesh_target_chunks(), 1);

    let (job, priority) = load.next_mesh_job(&mut jobs, 2).expect("a job");
    load.mesh_job_failed(&mut jobs, job.coord, priority);
    assert_eq!(load.mesh_target_chunks(), 0);
    assert!(!jobs.is_mesh_pending(a));
}
