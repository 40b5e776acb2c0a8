use adventure_quest::chunk_budget::SightedChunk;
use adventure_quest::client::DirtyMeshQueue;
use adventure_quest::coords::ChunkCoord;
use adventure_quest::coords::BlockPos;
use adventure_quest::gameplay::{BlockHit, BlockInteraction};
use adventure_quest::world::BlockEditSummary;
use adventure_quest::jobs::{
    accept_generated_chunk, accept_mesh_result, after_block_interaction, apply_mesh_job_result,
    dirty_mesh_step,
    next_dirty_chunk, ChunkJobTracker, DirtyMeshStep, MeshJobPriority, MeshResultAction,
    MAX_PENDING_GENERATION_JOBS, MAX_PENDING_NORMAL_MESH_JOBS,
};
use adventure_quest::terrain::{TerrainSamples, TerrainSource};
use adventure_quest::voxels::{Chunk, CHUNK_VOLUME, STONE_BLOCK};
use adventure_quest::world::{VoxelWorld, WorldStreamingSettings};

struct FlatTerrain;

impl TerrainSource for FlatTerrain {
    fn sample_chunk(&self, _seed: u64, _coord: ChunkCoord) -> TerrainSamples {
        TerrainSamples::new(vec![0; 1024], vec![false; CHUNK_VOLUME]).unwrap()
    }
}

fn chunk_with_block(coord: ChunkCoord) -> Chunk {
    let mut chunk = Chunk::new_empty(coord);
    chunk.set_block(0, 0, 0, STONE_BLOCK);
    chunk
}

#[test]
fn job_tracker_reserves_each_job_once() {
    let c = ChunkCoord::new(1, 2, 3);
    let mut jobs = ChunkJobTracker::new();
    assert!(jobs.reserve_generation(c));
    assert!(!jobs.reserve_generation(c));
    assert!(jobs.is_generation_pending(c));
    assert_eq!(jobs.generation_pending_count(), 1);
    jobs.release_generation(c);
    assert!(!jobs.is_generation_pending(c));
    assert_eq!(jobs.generation_pending_count(), 0);
    assert_eq!(MAX_PENDING_GENERATION_JOBS, 8);
}

#[test]
fn job_tracker_keeps_mesh_priorities_apart() {
    let c = ChunkCoord::new(0, 0, 0);
    let mut jobs = ChunkJobTracker::new();
    assert!(jobs.reserve_mesh(c, MeshJobPriority::Normal));
    assert!(jobs.reserve_mesh(c, MeshJobPriority::Priority));
    assert!(!jobs.reserve_mesh(c, MeshJobPriority::Normal));
    assert_eq!(jobs.normal_mesh_pending_count(), 1);
    assert_eq!(jobs.mesh_pending_count(), 2);
    jobs.release_mesh(c, MeshJobPriority::Normal);
    assert!(jobs.is_mesh_pending(c));
    assert_eq!(jobs.mesh_pending_count(), 1);
    jobs.release_mesh(c, MeshJobPriority::Priority);
    assert!(!jobs.is_mesh_pending(c));
}

#[test]
fn mesh_result_of_unloaded_chunk_removes_mesh() {
    let mut world = VoxelWorld::new(0, FlatTerrain);
    let mut queue = DirtyMeshQueue::new();
    let action = apply_mesh_job_result(&mut world, &mut queue, ChunkCoord::new(0, 0, 0), 0, 1);
    assert_eq!(action, MeshResultAction::RemoveMesh);
    assert_eq!(queue.pending_count(), 0);
}

#[test]
fn stale_mesh_result_requeues_chunk() {
    let c = ChunkCoord::new(0, 0, 0);
    let mut world = VoxelWorld::new(0, FlatTerrain);
    world.insert_chunk(chunk_with_block(c));
    let mut queue = DirtyMeshQueue::new();
    let revision = world.get_chunk(c).unwrap().revision();
    let action = apply_mesh_job_result(&mut world, &mut queue, c, revision.wrapping_sub(1), 1);
    assert_eq!(action, MeshResultAction::Requeued);
    assert_eq!(queue.pending(), &[c]);
    assert_ne!(world.get_chunk(c).unwrap().subchunk_dirty_mask(), 0);
}

#[test]
fn current_mesh_result_records_visibility_and_clears_dirty() {
    let c = ChunkCoord::new(0, 0, 0);
    let mut world = VoxelWorld::new(0, FlatTerrain);
    world.insert_chunk(chunk_with_block(c));
    let mut queue = DirtyMeshQueue::new();
    let revision = world.get_chunk(c).unwrap().revision();
    let action = apply_mesh_job_result(&mut world, &mut queue, c, revision, 0b0000_0001);
    assert_eq!(action, MeshResultAction::Upload);
    let chunk = world.get_chunk(c).unwrap();
    assert_eq!(chunk.subchunk_visible_mask(), 1);
    assert_eq!(chunk.subchunk_dirty_mask(), 0);
    assert_eq!(queue.pending_count(), 0);
}

#[test]
fn mesh_result_outside_render_radius_is_dropped() {
    let center = ChunkCoord::new(0, 0, 0);
    let far = ChunkCoord::new(20, 0, 0);
    let mut world = VoxelWorld::new(0, FlatTerrain);
    world.insert_chunk(chunk_with_block(far));
    let mut queue = DirtyMeshQueue::new();
    let settings = WorldStreamingSettings::new(8, 8, 8, 8, 8, 9);
    let revision = world.get_chunk(far).unwrap().revision();
    let action = accept_mesh_result(&mut world, &mut queue, center, settings, far, revision, 1);
    assert_eq!(action, None);
    assert_ne!(world.get_chunk(far).unwrap().subchunk_dirty_mask(), 0);

    let near = ChunkCoord::new(1, 0, 0);
    world.insert_chunk(chunk_with_block(near));
    let revision = world.get_chunk(near).unwrap().revision();
    let action = accept_mesh_result(&mut world, &mut queue, center, settings, near, revision, 1);
    assert_eq!(action, Some(MeshResultAction::Upload));
}

#[test]
fn generated_chunk_marks_itself_and_loaded_neighbors_dirty() {
    let c = ChunkCoord::new(0, 0, 0);
    let neighbor = ChunkCoord::new(1, 0, 0);
    let mut world = VoxelWorld::new(0, FlatTerrain);
    let mut loaded = Chunk::new_empty(neighbor);
    loaded.clear_dirty();
    world.insert_chunk(loaded);
    let mut queue = DirtyMeshQueue::new();

    assert!(accept_generated_chunk(&mut world, &mut queue, Chunk::new_empty(c)));
    assert_eq!(queue.pending(), &[c, neighbor]);
    assert_eq!(world.get_chunk(neighbor).unwrap().subchunk_dirty_mask(), 0xFF);

    assert!(!accept_generated_chunk(&mut world, &mut queue, chunk_with_block(c)));
    assert!(world.get_chunk(c).unwrap().is_empty());
}

#[test]
fn dirty_chunks_wait_while_normal_mesh_jobs_are_full() {
    let c = ChunkCoord::new(0, 0, 0);
    let mut world = VoxelWorld::new(0, FlatTerrain);
    world.insert_chunk(chunk_with_block(c));
    let mut queue = DirtyMeshQueue::new();
    queue.enqueue(c);
    let mut jobs = ChunkJobTracker::new();
    for x in 0..MAX_PENDING_NORMAL_MESH_JOBS as i32 {
        jobs.reserve_mesh(ChunkCoord::new(100 + x, 0, 0), MeshJobPriority::Normal);
    }
    assert_eq!(next_dirty_chunk(&world, &mut queue, &jobs), None);
    assert_eq!(queue.pending(), &[c]);

    let jobs = ChunkJobTracker::new();
    assert_eq!(next_dirty_chunk(&world, &mut queue, &jobs), Some(c));
    assert_eq!(queue.pending_count(), 0);
}

#[test]
fn dirty_mesh_step_sends_visible_candidates_once() {
    let center = ChunkCoord::new(0, 0, 0);
    let c = ChunkCoord::new(1, 0, 0);
    let mut world = VoxelWorld::new(0, FlatTerrain);
    world.insert_chunk(chunk_with_block(c));
    let settings = WorldStreamingSettings::new(8, 8, 8, 8, 8, 9);
    let mut queue = DirtyMeshQueue::new();
    let mut jobs = ChunkJobTracker::new();

    let hidden = SightedChunk { coord: c, visible: false, depth_key: 0 };
    assert!(matches!(
        dirty_mesh_step(&world, &mut queue, &mut jobs, center, settings, hidden),
        DirtyMeshStep::Deferred
    ));
    assert_eq!(queue.pending(), &[c]);

    let seen = SightedChunk { coord: c, visible: true, depth_key: 0 };
    match dirty_mesh_step(&world, &mut queue, &mut jobs, center, settings, seen) {
        DirtyMeshStep::Send(input) => {
            assert_eq!(input.coord, c);
            assert_eq!(input.revision, world.get_chunk(c).unwrap().revision());
        }
        _ => panic!("expected a mesh job"),
    }
    assert!(jobs.is_mesh_pending(c));
    assert!(matches!(
        dirty_mesh_step(&world, &mut queue, &mut jobs, center, settings, seen),
        DirtyMeshStep::Skip
    ));

    let far = SightedChunk { coord: ChunkCoord::new(30, 0, 0), visible: true, depth_key: 0 };
    assert!(matches!(
        dirty_mesh_step(&world, &mut queue, &mut jobs, center, settings, far),
        DirtyMeshStep::Skip
    ));
}

fn break_at(block: BlockPos, changed: usize) -> BlockInteraction {
    BlockInteraction::Break {
        hit: BlockHit {
            world_block: block,
            chunk_coord: ChunkCoord::new(0, 0, 0),
            local_block: (0, 0, 0),
            block_id: STONE_BLOCK,
            face_normal: [0, 1, 0],
        },
        summary: BlockEditSummary { requested_edits: 1, changed_blocks: changed },
    }
}

#[test]
fn edits_that_change_blocks_schedule_priority_meshes_and_saving() {
    let c = ChunkCoord::new(0, 0, 0);
    let east = ChunkCoord::new(1, 0, 0);
    let mut world = VoxelWorld::new(0, FlatTerrain);
    world.insert_chunk(chunk_with_block(c));
    world.insert_chunk(chunk_with_block(east));
    let mut queue = DirtyMeshQueue::new();
    let mut jobs = ChunkJobTracker::new();
    let mut modified = Vec::new();

    let follow = after_block_interaction(&world, &mut queue, &mut jobs, &mut modified, break_at(BlockPos::new(0, 0, 0), 1));
    assert!(follow.save_needed);
    assert_eq!(modified, vec![c]);
    assert_eq!(queue.pending()[0], c);
    assert_eq!(queue.pending()[1], east);
    assert_eq!(queue.pending_count(), 7);
    let sent: Vec<ChunkCoord> = follow.mesh_jobs.iter().map(|input| input.coord).collect();
    assert_eq!(sent, vec![c, east]);
    assert_eq!(jobs.mesh_pending_count(), 2);

    let again = after_block_interaction(&world, &mut queue, &mut jobs, &mut modified, break_at(BlockPos::new(0, 0, 0), 1));
    assert!(again.mesh_jobs.is_empty());
    assert_eq!(modified, vec![c]);
}

#[test]
fn edits_that_change_nothing_leave_everything_alone() {
    let world = VoxelWorld::new(0, FlatTerrain);
    let mut queue = DirtyMeshQueue::new();
    let mut jobs = ChunkJobTracker::new();
    let mut modified = Vec::new();
    let follow = after_block_interaction(&world, &mut queue, &mut jobs, &mut modified, break_at(BlockPos::new(0, 0, 0), 0));
    assert!(!follow.save_needed);
    assert!(follow.mesh_jobs.is_empty());
    assert_eq!(queue.pending_count(), 0);
    assert!(modified.is_empty());

    let follow = after_block_interaction(&world, &mut queue, &mut jobs, &mut modified, BlockInteraction::Miss);
    assert!(!follow.save_needed);
}
