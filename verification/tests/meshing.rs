use adventure_quest::coords::{BlockPos, ChunkCoord};
use adventure_quest::meshing::{
    border_axis_index, border_sample_index, cube_face, mesh_chunk, mesh_chunk_input,
    mesh_dirty_subchunks, mesh_subchunk, neighbor_chunk_coords, subchunk_axis_range,
    subchunk_ranges, ChunkMeshInput, Direction, MeshFaces, NeighborBorders,
};
use adventure_quest::block_config::CubeFace;
use adventure_quest::terrain::{TerrainSamples, TerrainSource};
use adventure_quest::voxels::{
    subchunk_bit, subchunk_index, Chunk, AIR_BLOCK, CHUNK_VOLUME, STONE_BLOCK,
};
use adventure_quest::world::VoxelWorld;

/// Flat terrain without caves; meshing tests place their own blocks.
struct FlatTerrain;

impl TerrainSource for FlatTerrain {
    fn sample_chunk(&self, _seed: u64, _coord: ChunkCoord) -> TerrainSamples {
        TerrainSamples::new(vec![0; 1024], vec![false; CHUNK_VOLUME]).unwrap()
    }
}

fn world_with_empty_chunk(coord: ChunkCoord) -> VoxelWorld<FlatTerrain> {
    let mut world = VoxelWorld::new(0, FlatTerrain);
    world.insert_chunk(Chunk::new_empty(coord));
    world
}

#[test]
fn missing_chunk_has_no_mesh() {
    let world = VoxelWorld::new(0, FlatTerrain);

    assert!(mesh_chunk(&world, ChunkCoord::new(0, 0, 0)).is_none());
    assert!(mesh_subchunk(&world, ChunkCoord::new(0, 0, 0), 0).is_none());
}

#[test]
fn single_block_meshes_all_six_faces() {
    let coord = ChunkCoord::new(0, 0, 0);
    let mut world = world_with_empty_chunk(coord);

    world.set_block(BlockPos::new(1, 1, 1), STONE_BLOCK);

    let mesh = mesh_chunk(&world, coord).expect("chunk exists");

    assert_eq!(mesh.visible_face_count, 6);
    assert_eq!(mesh.vertex_count(), 24);
    assert_eq!(mesh.index_count(), 36);
    assert_eq!(mesh.triangle_count(), 12);
    assert_eq!(mesh.subchunk_visible_mask, subchunk_bit(0));
    assert!(mesh.has_visible_geometry());
}

#[test]
fn adjacent_blocks_cull_the_shared_face() {
    let coord = ChunkCoord::new(0, 0, 0);
    let mut world = world_with_empty_chunk(coord);

    world.set_block(BlockPos::new(1, 1, 1), STONE_BLOCK);
    world.set_block(BlockPos::new(2, 1, 1), STONE_BLOCK);

    let mesh = mesh_chunk(&world, coord).expect("chunk exists");

    assert_eq!(mesh.visible_face_count, 10);
    assert_eq!(mesh.triangle_count(), 20);
    assert_eq!(mesh.subchunk_visible_mask, subchunk_bit(0));
}

#[test]
fn subchunk_mesh_limits_output_to_requested_subchunk() {
    let coord = ChunkCoord::new(0, 0, 0);
    let mut world = world_with_empty_chunk(coord);

    world.set_block(BlockPos::new(17, 1, 1), STONE_BLOCK);

    let empty_mesh = mesh_subchunk(&world, coord, 0).expect("chunk exists");
    let filled_mesh = mesh_subchunk(&world, coord, 1).expect("chunk exists");

    assert_eq!(empty_mesh.visible_face_count, 0);
    assert_eq!(empty_mesh.subchunk_visible_mask, 0);
    assert!(!empty_mesh.has_visible_geometry());
    assert_eq!(filled_mesh.visible_face_count, 6);
    assert_eq!(filled_mesh.subchunk_visible_mask, subchunk_bit(1));
}

#[test]
fn dirty_subchunk_meshes_follow_chunk_dirty_mask() {
    let coord = ChunkCoord::new(0, 0, 0);
    let mut world = world_with_empty_chunk(coord);

    world.set_block(BlockPos::new(17, 1, 1), STONE_BLOCK);

    let meshes = mesh_dirty_subchunks(&world, coord).expect("chunk exists");

    assert_eq!(meshes.len(), 1);
    assert_eq!(meshes[0].0, subchunk_index(17, 1, 1));
    assert_eq!(meshes[0].1.visible_face_count, 6);
    assert_eq!(meshes[0].1.subchunk_visible_mask, subchunk_bit(1));
}

#[test]
fn subchunk_boundary_meshes_cull_cross_subchunk_faces() {
    let coord = ChunkCoord::new(0, 0, 0);
    let mut world = world_with_empty_chunk(coord);

    world.set_block(BlockPos::new(15, 1, 1), STONE_BLOCK);
    world.set_block(BlockPos::new(16, 1, 1), STONE_BLOCK);

    let left_mesh = mesh_subchunk(&world, coord, subchunk_index(15, 1, 1)).expect("chunk exists");
    let right_mesh =
        mesh_subchunk(&world, coord, subchunk_index(16, 1, 1)).expect("chunk exists");

    assert_eq!(left_mesh.visible_face_count, 5);
    assert_eq!(right_mesh.visible_face_count, 5);
    assert_eq!(left_mesh.subchunk_visible_mask, subchunk_bit(0));
    assert_eq!(right_mesh.subchunk_visible_mask, subchunk_bit(1));
}

#[test]
fn chunk_boundary_meshes_cull_faces_against_loaded_neighbor_chunks() {
    let coord = ChunkCoord::new(0, 0, 0);
    let neighbor_coord = ChunkCoord::new(1, 0, 0);
    let mut world = world_with_empty_chunk(coord);
    world.insert_chunk(Chunk::new_empty(neighbor_coord));

    world.set_block(BlockPos::new(31, 16, 16), STONE_BLOCK);
    world.set_block(BlockPos::new(32, 16, 16), STONE_BLOCK);

    let origin_mesh = mesh_chunk(&world, coord).expect("origin chunk exists");
    let neighbor_mesh = mesh_chunk(&world, neighbor_coord).expect("neighbor chunk exists");

    assert_eq!(origin_mesh.visible_face_count, 5);
    assert_eq!(neighbor_mesh.visible_face_count, 5);
    assert_eq!(origin_mesh.subchunk_visible_mask, subchunk_bit(7));
    assert_eq!(neighbor_mesh.subchunk_visible_mask, subchunk_bit(6));
}

#[test]
fn snapshot_mesh_matches_live_world_mesh() {
    let coord = ChunkCoord::new(0, 0, 0);
    let neighbor_coord = ChunkCoord::new(1, 0, 0);
    let mut world = world_with_empty_chunk(coord);
    world.insert_chunk(Chunk::new_empty(neighbor_coord));

    world.set_block(BlockPos::new(31, 16, 16), STONE_BLOCK);
    world.set_block(BlockPos::new(32, 16, 16), STONE_BLOCK);

    let input = ChunkMeshInput::from_world(&world, coord).expect("snapshot exists");
    let live_mesh = mesh_chunk(&world, coord).expect("live mesh exists");
    let snapshot_mesh = mesh_chunk_input(&input);

    assert_eq!(input.revision, world.get_chunk(coord).unwrap().revision());
    assert_eq!(
        snapshot_mesh.visible_face_count,
        live_mesh.visible_face_count
    );
    assert_eq!(snapshot_mesh.index_count(), live_mesh.index_count());
    assert_eq!(
        snapshot_mesh.subchunk_visible_mask,
        live_mesh.subchunk_visible_mask
    );
}

#[test]
fn snapshot_mesh_uses_neighbor_border_data() {
    let coord = ChunkCoord::new(0, 0, 0);
    let neighbor_coord = coord.offset(1, 0, 0);
    let mut world = world_with_empty_chunk(coord);
    world.insert_chunk(Chunk::new_empty(neighbor_coord));

    world.set_block(BlockPos::new(31, 16, 16), STONE_BLOCK);
    world.set_block(BlockPos::new(32, 16, 16), STONE_BLOCK);

    let input = ChunkMeshInput::from_world(&world, coord).expect("snapshot exists");
    let mesh = mesh_chunk_input(&input);

    assert_eq!(mesh.visible_face_count, 5);
}

#[test]
fn snapshot_mesh_treats_missing_neighbor_borders_as_occluding() {
    let coord = ChunkCoord::new(0, 0, 0);
    let mut world = world_with_empty_chunk(coord);

    world.set_block(BlockPos::new(31, 0, 0), STONE_BLOCK);

    let input = ChunkMeshInput::from_world(&world, coord).expect("snapshot exists");
    let mesh = mesh_chunk_input(&input);

    assert_eq!(mesh.visible_face_count, 3);
}

#[test]
fn live_and_snapshot_meshes_list_the_same_faces() {
    let coord = ChunkCoord::new(0, 0, 0);
    let mut world = world_with_empty_chunk(coord);
    world.insert_chunk(Chunk::new_empty(ChunkCoord::new(0, 1, 0)));
    world.insert_chunk(Chunk::new_empty(ChunkCoord::new(0, 0, -1)));
    for pos in [
        BlockPos::new(0, 31, 0),
        BlockPos::new(0, 32, 0),
        BlockPos::new(5, 0, 0),
        BlockPos::new(5, 5, -1),
        BlockPos::new(31, 31, 31),
    ] {
        world.set_block(pos, STONE_BLOCK);
    }

    let input = ChunkMeshInput::from_world(&world, coord).unwrap();
    let live: MeshFaces = mesh_chunk(&world, coord).unwrap();
    let snapshot = mesh_chunk_input(&input);

    assert_eq!(live.faces, snapshot.faces);
    assert_eq!(live.visible_face_count, snapshot.visible_face_count);
    assert_eq!(live.subchunk_visible_mask, snapshot.subchunk_visible_mask);
}

#[test]
fn mesh_faces_carry_world_positions_and_blocks() {
    let coord = ChunkCoord::new(-1, 2, 0);
    let mut world = world_with_empty_chunk(coord);
    world.set_block(BlockPos::new(-5, 70, 3), STONE_BLOCK);

    let mesh = mesh_chunk(&world, coord).unwrap();

    assert_eq!(mesh.faces.len(), 6);
    for face in &mesh.faces {
        assert_eq!(face.world_pos, BlockPos::new(-5, 70, 3));
        assert_eq!((face.x, face.y, face.z), (27, 6, 3));
        assert_eq!(face.block, STONE_BLOCK);
    }
    assert_eq!(mesh.faces[0].direction, Direction::PosX);
    assert_eq!(mesh.faces[5].direction, Direction::NegZ);
}

#[test]
fn air_chunk_meshes_empty() {
    let coord = ChunkCoord::new(0, 0, 0);
    let world = world_with_empty_chunk(coord);

    let mesh = mesh_chunk(&world, coord).unwrap();

    assert_eq!(mesh.visible_face_count, 0);
    assert!(mesh.faces.is_empty());
    assert!(!mesh.has_visible_geometry());
    assert!(mesh_subchunk(&world, coord, 8).is_none());
}

#[test]
fn border_indices_pick_the_in_face_axes() {
    assert_eq!(border_axis_index(3, 2), 3 + 2 * 32);
    assert_eq!(border_sample_index(Direction::PosX, 9, 3, 2), 3 + 2 * 32);
    assert_eq!(border_sample_index(Direction::NegY, 3, 9, 2), 3 + 2 * 32);
    assert_eq!(border_sample_index(Direction::PosZ, 3, 2, 9), 3 + 2 * 32);
}

#[test]
fn neighbor_borders_read_captured_faces_and_default_to_stone() {
    let coord = ChunkCoord::new(0, 0, 0);
    let mut world = world_with_empty_chunk(coord);
    world.insert_chunk(Chunk::new_empty(ChunkCoord::new(0, 1, 0)));
    world.set_block(BlockPos::new(4, 32, 7), STONE_BLOCK);

    let borders = NeighborBorders::from_world(&world, coord);

    assert_eq!(borders.block(Direction::PosY, 4, 31, 7), STONE_BLOCK);
    assert_eq!(borders.block(Direction::PosY, 5, 31, 7), AIR_BLOCK);
    assert_eq!(borders.block(Direction::NegX, 0, 3, 3), STONE_BLOCK);
}

#[test]
fn subchunk_ranges_select_halves_by_bits() {
    assert_eq!(subchunk_axis_range(false), 0..16);
    assert_eq!(subchunk_axis_range(true), 16..32);
    assert_eq!(subchunk_ranges(0), (0..16, 0..16, 0..16));
    assert_eq!(subchunk_ranges(5), (16..32, 0..16, 16..32));
    assert_eq!(subchunk_ranges(6), (0..16, 16..32, 16..32));
}

#[test]
fn directions_map_to_faces_and_neighbor_slots() {
    assert_eq!(cube_face(Direction::PosX), CubeFace::PosX);
    assert_eq!(cube_face(Direction::NegZ), CubeFace::NegZ);
    assert_eq!(Direction::PosX.neighbor_index(), 0);
    assert_eq!(Direction::NegY.neighbor_index(), 3);
    assert_eq!(Direction::NegZ.neighbor_index(), 5);
    let coords = neighbor_chunk_coords(ChunkCoord::new(0, 0, 0));
    assert_eq!(coords[0], (Direction::PosX, ChunkCoord::new(1, 0, 0)));
    assert_eq!(coords[3], (Direction::NegY, ChunkCoord::new(0, -1, 0)));
}

#[test]
fn subchunk_meshes_split_the_chunk_mesh() {
    let coord = ChunkCoord::new(0, 0, 0);
    let mut world = world_with_empty_chunk(coord);
    for (x, y, z) in [(1, 1, 1), (15, 15, 15), (16, 15, 15), (31, 31, 0), (0, 16, 20)] {
        world.set_block(BlockPos::new(x, y, z), STONE_BLOCK);
    }

    let whole = mesh_chunk(&world, coord).expect("chunk exists");
    let mut from_parts = Vec::new();
    for subchunk in 0..8 {
        let part = mesh_subchunk(&world, coord, subchunk).expect("chunk exists");
        for face in &part.faces {
            assert!(whole.faces.contains(face));
        }
        from_parts.extend(part.faces);
    }

    assert_eq!(from_parts.len(), whole.faces.len());
    for face in &whole.faces {
        assert!(from_parts.contains(face));
    }
}
