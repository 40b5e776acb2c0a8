use adventure_quest::client::{
    axis_sign, block_ui_label, changed_block_count, chunk_distance_key, chunk_is_render_candidate,
    chunk_is_render_skin, chunk_within_render_distance, clamp_setting_value,
    dirty_window_chunk_coords, hotbar_slot_for_key, interaction_modified_chunks,
    interaction_priority_chunks, is_settings_character_allowed, limit_preload_coords,
    mark_streamed_chunk_dirty, neighbor_chunk_coords, parse_clamped_i32_setting,
    push_near_streaming_coords, push_unique_chunk_coord, visible_ray_min_chunk_y, streaming_settings_for_view_distance, ChunkStreamingState,
    ClientOptions, DirtyMeshQueue, FpsCounter, GameKey, InputState, RenderFrameStats,
    RendererOptions, SettingsField, StreamingViewKey, DEFAULT_RENDER_CHUNK_DISTANCE,
    MAX_RENDER_CHUNK_DISTANCE, MIN_RENDER_CHUNK_DISTANCE,
};
use adventure_quest::chunk_budget::{chunk_render_priority_key, SightedChunk};
use adventure_quest::coords::{BlockPos, ChunkCoord};
use adventure_quest::gameplay::{BlockHit, BlockInteraction};
use adventure_quest::ordering::ChunkPriority;
use adventure_quest::terrain::{TerrainSamples, TerrainSource};
use adventure_quest::voxels::{
    Chunk, AIR_BLOCK, CHUNK_VOLUME, COAL_ORE_BLOCK, DIRT_BLOCK, GRASS_BLOCK, IRON_ORE_BLOCK,
    STONE_BLOCK, SUBCHUNK_COUNT,
};
use adventure_quest::world::{BlockEditSummary, VoxelWorld, WorldStreamingSettings};

/// Flat terrain without caves; these tests place their own chunks.
struct FlatTerrain;

impl TerrainSource for FlatTerrain {
    fn sample_chunk(&self, _seed: u64, _coord: ChunkCoord) -> TerrainSamples {
        TerrainSamples::new(vec![0; 1024], vec![false; CHUNK_VOLUME]).unwrap()
    }
}

fn world_with_dirty_chunk(coord: ChunkCoord) -> VoxelWorld<FlatTerrain> {
    let mut world = VoxelWorld::new(0, FlatTerrain);
    let mut chunk = Chunk::new_empty(coord);
    chunk.set_block(0, 0, 0, STONE_BLOCK);
    world.insert_chunk(chunk);
    world
}

fn world_with_empty_chunks(coords: impl IntoIterator<Item = ChunkCoord>) -> VoxelWorld<FlatTerrain> {
    let mut world = VoxelWorld::new(0, FlatTerrain);

    for coord in coords {
        world.insert_chunk(Chunk::new_empty(coord));
    }

    world
}

fn full_stone_chunk(coord: ChunkCoord) -> Chunk {
    Chunk::from_blocks(coord, vec![STONE_BLOCK; CHUNK_VOLUME], 0)
}

fn test_ray_hit(world_block: BlockPos) -> BlockHit {
    BlockHit {
        world_block,
        chunk_coord: adventure_quest::voxels::world_to_chunk_coord(
            world_block.x,
            world_block.y,
            world_block.z,
        ),
        local_block: (0, 0, 0),
        block_id: STONE_BLOCK,
        face_normal: [-1, 0, 0],
    }
}

#[test]
fn dirty_mesh_queue_deduplicates_dirty_chunks() {
    let coord = ChunkCoord::new(0, 0, 0);
    let world = world_with_dirty_chunk(coord);
    let mut queue = DirtyMeshQueue::default();

    queue.enqueue_dirty(&world);
    queue.enqueue_dirty(&world);

    assert_eq!(queue.pending_count(), 1);
    assert_eq!(queue.pop_dirty(&world), Some(coord));
    assert_eq!(queue.pop_dirty(&world), None);
}

#[test]
fn dirty_mesh_queue_skips_chunks_that_are_no_longer_dirty() {
    let coord = ChunkCoord::new(0, 0, 0);
    let mut world = world_with_dirty_chunk(coord);
    let mut queue = DirtyMeshQueue::default();

    queue.enqueue_dirty(&world);
    world.get_chunk_mut(coord).unwrap().clear_dirty();

    assert_eq!(queue.pop_dirty(&world), None);
    assert_eq!(queue.pending_count(), 0);
}

#[test]
fn client_options_parse_window_flags() {
    let options = ClientOptions::from_args(&["--fps-window", "--no-vsync"]);

    assert!(!options.no_window);
    assert!(options.show_fps);
    assert_eq!(options.renderer, RendererOptions::new(false));
}

#[test]
fn client_options_parse_no_window() {
    let options = ClientOptions::from_args(&["--no-window"]);

    assert!(options.no_window);
    assert!(!options.show_fps);
    assert_eq!(options.renderer, RendererOptions::default());
}

#[test]
fn block_ui_labels_match_starter_hotbar_blocks() {
    assert_eq!(block_ui_label(DIRT_BLOCK), "DIRT");
    assert_eq!(block_ui_label(GRASS_BLOCK), "GRASS");
    assert_eq!(block_ui_label(STONE_BLOCK), "STONE");
    assert_eq!(block_ui_label(COAL_ORE_BLOCK), "COAL ORE");
    assert_eq!(block_ui_label(IRON_ORE_BLOCK), "IRON ORE");
    assert_eq!(block_ui_label(AIR_BLOCK), "EMPTY");
}

#[test]
fn chunk_render_distance_uses_full_3d_radius() {
    let center = ChunkCoord::new(0, 0, 0);
    let settings = WorldStreamingSettings::new(8, 8, 8, 8, 8, 9);

    assert!(chunk_within_render_distance(
        center,
        center.offset(0, 8, 0),
        settings
    ));
    assert!(!chunk_within_render_distance(
        center,
        center.offset(6, 6, 0),
        settings
    ));
}

#[test]
fn render_skin_requires_sky_exposed_surface() {
    let surface = ChunkCoord::new(0, 0, 0);
    let empty = ChunkCoord::new(1, 0, 0);
    let buried = ChunkCoord::new(5, -1, 0);
    let above_buried = buried.offset(0, 1, 0);
    let mut world = VoxelWorld::new(0, FlatTerrain);
    let mut surface_chunk = Chunk::new_empty(surface);

    surface_chunk.set_block(0, 0, 0, STONE_BLOCK);
    surface_chunk.clear_dirty();

    world.insert_chunk(surface_chunk);
    world.insert_chunk(Chunk::new_empty(empty));
    world.insert_chunk(full_stone_chunk(buried));
    world.insert_chunk(full_stone_chunk(above_buried));

    assert!(chunk_is_render_skin(&world, surface));
    assert!(!chunk_is_render_skin(&world, empty));
    assert!(!chunk_is_render_skin(&world, buried));
}

#[test]
fn render_candidate_retains_chunks_without_current_frustum_visibility() {
    let center = ChunkCoord::new(0, 0, 0);
    let behind = center.offset(-1, 0, 0);
    let world = world_with_dirty_chunk(behind);
    let settings = WorldStreamingSettings::new(8, 8, 8, 8, 8, 9);

    assert!(chunk_is_render_candidate(&world, center, behind, settings));
}

#[test]
fn streamed_chunk_dirty_marking_updates_loaded_neighbors() {
    let coord = ChunkCoord::new(0, 0, 0);
    let neighbor = coord.offset(1, 0, 0);
    let missing_neighbor = coord.offset(-1, 0, 0);
    let mut world = world_with_empty_chunks([coord, neighbor]);

    let dirty = mark_streamed_chunk_dirty(&mut world, coord);

    assert!(dirty.contains(&coord));
    assert!(dirty.contains(&neighbor));
    assert!(!dirty.contains(&missing_neighbor));

    let expected_mask = ((1u16 << SUBCHUNK_COUNT) - 1) as u8;
    assert_eq!(
        world.get_chunk(coord).unwrap().subchunk_dirty_mask(),
        expected_mask
    );
    assert_eq!(
        world.get_chunk(neighbor).unwrap().subchunk_dirty_mask(),
        expected_mask
    );
}

#[test]
fn integer_settings_clamp_long_user_values() {
    assert_eq!(
        parse_clamped_i32_setting(
            "999999999999999999999999",
            DEFAULT_RENDER_CHUNK_DISTANCE,
            MIN_RENDER_CHUNK_DISTANCE,
            MAX_RENDER_CHUNK_DISTANCE,
        ),
        MAX_RENDER_CHUNK_DISTANCE
    );
    assert_eq!(parse_clamped_i32_setting("  12  ", 4, 5, 30), 12);
    assert_eq!(parse_clamped_i32_setting("   ", 4, 5, 30), 4);
    assert_eq!(parse_clamped_i32_setting("2", 4, 5, 30), 5);
    assert_eq!(parse_clamped_i32_setting("-7", 4, 5, 30), 5);
    assert_eq!(parse_clamped_i32_setting("x1", 4, 5, 30), 30);
    assert_eq!(clamp_setting_value(Some(i64::MAX), 5, 30), 30);
    assert_eq!(clamp_setting_value(None, 5, 30), 30);
    assert_eq!(clamp_setting_value(Some(17), 5, 30), 17);
}

#[test]
fn settings_fields_accept_digits_and_decimal_points() {
    assert!(is_settings_character_allowed(SettingsField::Fov, '7'));
    assert!(is_settings_character_allowed(SettingsField::MouseSensitivity, '.'));
    assert!(!is_settings_character_allowed(SettingsField::ChunkViewDistance, '.'));
    assert!(is_settings_character_allowed(SettingsField::ChunkViewDistance, '0'));
    assert!(!is_settings_character_allowed(SettingsField::Fov, 'a'));
    assert!(!is_settings_character_allowed(SettingsField::Fov, '-'));
}

#[test]
fn view_distance_maps_to_clamped_streaming_radii() {
    let low = streaming_settings_for_view_distance(1);
    let high = streaming_settings_for_view_distance(999);
    let mid = streaming_settings_for_view_distance(9);

    assert_eq!(low, WorldStreamingSettings::new(5, 5, 5, 5, 5, 6));
    assert_eq!(high.vertical_load_radius, MAX_RENDER_CHUNK_DISTANCE);
    assert_eq!(high.save_unload_radius, MAX_RENDER_CHUNK_DISTANCE + 1);
    assert_eq!(mid, WorldStreamingSettings::new(9, 9, 9, 9, 9, 10));
}

#[test]
fn fps_counter_reports_once_per_sample_period() {
    let mut counter = FpsCounter::new();
    let start = 1_000_000_000u64;

    assert_eq!(counter.record_frame(start), None);
    assert_eq!(counter.record_frame(start + 100_000_000), None);
    assert_eq!(counter.record_frame(start + 249_999_999), None);
    assert_eq!(counter.record_frame(start + 250_000_000), Some(16));
    assert_eq!(counter.frames_in_sample(), 0);
    assert_eq!(counter.record_frame(start + 260_000_000), None);
    assert_eq!(counter.record_frame(start + 760_000_000), Some(4));
}

#[test]
fn input_state_tracks_keys_and_sprinting() {
    let mut input = InputState::default();

    input.set_key(GameKey::KeyW, true);
    input.set_key(GameKey::ShiftLeft, true);
    assert!(input.forward && input.fast);
    assert!(input.can_sprint_forward());

    input.set_key(GameKey::ControlRight, true);
    assert!(!input.can_sprint_forward());
    input.set_key(GameKey::ControlRight, false);
    input.set_key(GameKey::KeyS, true);
    assert!(!input.can_sprint_forward());
    input.set_key(GameKey::Other, true);
    input.set_key(GameKey::AltLeft, true);
    assert!(input.down);
    assert_eq!(axis_sign(input.forward, input.backward), 0);
    assert_eq!(axis_sign(input.up, input.down), -1);
    assert_eq!(axis_sign(true, false), 1);
}

#[test]
fn digit_keys_select_hotbar_slots() {
    assert_eq!(hotbar_slot_for_key(GameKey::Digit1), Some(0));
    assert_eq!(hotbar_slot_for_key(GameKey::Digit9), Some(8));
    assert_eq!(hotbar_slot_for_key(GameKey::KeyW), None);
}

#[test]
fn chunk_distance_key_is_squared_distance() {
    assert_eq!(chunk_distance_key(ChunkCoord::new(1, 1, 1), ChunkCoord::new(-1, 4, 1)), 13);
    assert_eq!(chunk_distance_key(ChunkCoord::new(0, 0, 0), ChunkCoord::new(0, 0, 0)), 0);
}

#[test]
fn interactions_report_the_chunks_they_touch() {
    let hit = test_ray_hit(BlockPos::new(32, 0, 0));
    let summary = BlockEditSummary { requested_edits: 1, changed_blocks: 1 };
    let broke = BlockInteraction::Break { hit, summary };
    let placed = BlockInteraction::Place {
        hit,
        placed_block: BlockPos::new(31, 0, 0),
        block: STONE_BLOCK,
        summary,
    };

    assert_eq!(interaction_modified_chunks(broke), vec![ChunkCoord::new(1, 0, 0)]);
    assert_eq!(interaction_modified_chunks(placed), vec![ChunkCoord::new(0, 0, 0)]);
    assert!(interaction_modified_chunks(BlockInteraction::Miss).is_empty());
    assert_eq!(changed_block_count(broke), 1);
    assert_eq!(changed_block_count(BlockInteraction::NoPlaceableBlockSelected), 0);

    let priority = interaction_priority_chunks(broke);
    assert_eq!(priority.len(), 7);
    assert_eq!(priority[0], ChunkCoord::new(1, 0, 0));
    assert_eq!(&priority[1..], &neighbor_chunk_coords(ChunkCoord::new(1, 0, 0))[..]);

    let place_priority = interaction_priority_chunks(placed);
    assert_eq!(place_priority[0], ChunkCoord::new(0, 0, 0));
    assert_eq!(place_priority[1], ChunkCoord::new(1, 0, 0));
    assert_eq!(place_priority.len(), 12);
    let mut seen = place_priority.clone();
    seen.sort_by_key(|c| (c.x, c.y, c.z));
    seen.dedup();
    assert_eq!(seen.len(), place_priority.len());
}

#[test]
fn pushing_unique_coords_skips_repeats() {
    let mut coords = Vec::new();
    push_unique_chunk_coord(&mut coords, ChunkCoord::new(1, 2, 3));
    push_unique_chunk_coord(&mut coords, ChunkCoord::new(1, 2, 3));
    push_unique_chunk_coord(&mut coords, ChunkCoord::new(0, 0, 0));

    assert_eq!(coords, vec![ChunkCoord::new(1, 2, 3), ChunkCoord::new(0, 0, 0)]);
}

#[test]
fn preload_coords_keep_cap_and_center() {
    let center = ChunkCoord::new(0, 0, 0);
    let coords: Vec<ChunkCoord> = (1..10).map(|x| ChunkCoord::new(x, 0, 0)).collect();

    let limited = limit_preload_coords(coords.clone(), center, 4);
    assert_eq!(limited.len(), 5);
    assert_eq!(limited[0], center);
    assert_eq!(limited[1..], coords[..4]);

    let with_center = limit_preload_coords(vec![ChunkCoord::new(2, 0, 0), center], center, 4);
    assert_eq!(with_center, vec![ChunkCoord::new(2, 0, 0), center]);
}

#[test]
fn chunk_streaming_state_pops_only_missing_chunks() {
    let center = ChunkCoord::new(0, 0, 0);
    let mut state = ChunkStreamingState::new(WorldStreamingSettings::prototype());
    let world = world_with_empty_chunks([center]);
    let key = StreamingViewKey { center, radius: 1, yaw_bucket: 0, pitch_bucket: 0 };

    assert!(state.update_view(key, vec![center, ChunkCoord::new(1, 0, 0), ChunkCoord::new(2, 0, 0)]));
    assert!(!state.update_view(key, Vec::new()));

    let first_missing = state.pop_missing(&world);

    assert_eq!(first_missing, Some(ChunkCoord::new(1, 0, 0)));
    assert_eq!(state.pending_count(), 1);

    state.set_settings(WorldStreamingSettings::new(2, 2, 2, 2, 2, 3));
    assert_eq!(state.pending_count(), 0);
    assert_eq!(state.view_key(), None);
}

#[test]
fn dirty_window_coords_are_sorted_and_only_dirty() {
    let mut world = world_with_empty_chunks([ChunkCoord::new(9, 9, 9)]);
    for coord in [ChunkCoord::new(3, 1, 0), ChunkCoord::new(0, 0, 5), ChunkCoord::new(-2, 0, 5)] {
        let mut chunk = Chunk::new_empty(coord);
        chunk.set_block(1, 1, 1, STONE_BLOCK);
        world.insert_chunk(chunk);
    }

    assert_eq!(
        dirty_window_chunk_coords(&world),
        vec![ChunkCoord::new(-2, 0, 5), ChunkCoord::new(0, 0, 5), ChunkCoord::new(3, 1, 0)]
    );
}

#[test]
fn dirty_mesh_queue_orders_by_priority_keys_and_front_requests() {
    let a = ChunkCoord::new(1, 0, 0);
    let b = ChunkCoord::new(2, 0, 0);
    let c = ChunkCoord::new(3, 0, 0);
    let mut queue = DirtyMeshQueue::new();

    queue.enqueue(a);
    queue.enqueue(b);
    queue.enqueue(c);
    queue.enqueue(a);
    assert_eq!(queue.pending(), &[a, b, c]);
    assert!(queue.needs_priority_sort());

    let key = |rank: u8, depth: i32| ChunkPriority { rank, depth, distance: 0, y: 0, z: 0, x: 0 };
    queue.prioritize(&[key(1, 5), key(0, 9), key(1, 5)]);
    assert_eq!(queue.pending(), &[b, a, c]);
    assert!(!queue.needs_priority_sort());

    queue.prioritize(&[key(9, 9), key(0, 0), key(5, 5)]);
    assert_eq!(queue.pending(), &[b, a, c]);

    queue.enqueue_front(c);
    assert_eq!(queue.pending(), &[c, b, a]);

    queue.enqueue_priority(&[a, ChunkCoord::new(7, 7, 7), a]);
    assert_eq!(queue.pending(), &[a, ChunkCoord::new(7, 7, 7), c, b]);
}

#[test]
fn frame_stats_start_at_zero() {
    let stats = RenderFrameStats::default();

    assert_eq!(stats.drawn_chunk_meshes, 0);
    assert_eq!(stats.drawn_indices, 0);
    assert_eq!(stats.terrain_draw_calls, 0);
}

#[test]
fn near_streaming_coords_fill_a_sphere_in_y_z_x_order() {
    let center = ChunkCoord::new(0, 0, 0);
    let mut coords = vec![ChunkCoord::new(0, 0, 0)];
    push_near_streaming_coords(center, 8, 1, &mut coords);
    assert_eq!(
        coords,
        vec![
            ChunkCoord::new(0, 0, 0),
            ChunkCoord::new(0, -1, 0),
            ChunkCoord::new(0, 0, -1),
            ChunkCoord::new(-1, 0, 0),
            ChunkCoord::new(1, 0, 0),
            ChunkCoord::new(0, 0, 1),
            ChunkCoord::new(0, 1, 0),
        ]
    );

    let mut only_center = Vec::new();
    push_near_streaming_coords(ChunkCoord::new(5, -2, 7), -3, 4, &mut only_center);
    assert_eq!(only_center, vec![ChunkCoord::new(5, -2, 7)]);

    let mut ball = Vec::new();
    push_near_streaming_coords(center, 2, 5, &mut ball);
    assert_eq!(ball.len(), 33);
    assert!(ball.iter().all(|c| c.x * c.x + c.y * c.y + c.z * c.z <= 4));
}

#[test]
fn view_rays_stop_below_the_surface_or_the_near_sphere() {
    assert_eq!(visible_ray_min_chunk_y(ChunkCoord::new(0, 3, 0), 2, 4), -2);
    assert_eq!(visible_ray_min_chunk_y(ChunkCoord::new(0, 0, 0), 2, 4), -2);
    assert_eq!(visible_ray_min_chunk_y(ChunkCoord::new(0, -5, 0), 2, 4), -9);
}

/// Depth key of a chunk seen from a camera at `eye` looking along `forward`: its
/// center's distance in front of the camera, in sixteenths of a block.
fn depth_key(eye: [f32; 3], forward: [f32; 3], coord: ChunkCoord) -> i32 {
    let center = [
        coord.x as f32 * 32.0 + 16.0,
        coord.y as f32 * 32.0 + 16.0,
        coord.z as f32 * 32.0 + 16.0,
    ];
    let depth = (center[0] - eye[0]) * forward[0]
        + (center[1] - eye[1]) * forward[1]
        + (center[2] - eye[2]) * forward[2];
    (depth.max(0.0) * 16.0).round() as i32
}

#[test]
fn dirty_mesh_queue_prioritizes_nearer_forward_chunks() {
    let center = ChunkCoord::new(0, 0, 0);
    let near = center.offset(1, 0, 0);
    let far = center.offset(8, 0, 0);
    let mut world = VoxelWorld::new(0, FlatTerrain);
    let settings = WorldStreamingSettings::new(12, 12, 12, 12, 12, 13);
    let eye = [16.0, 16.0, 16.0];
    let forward = [1.0, 0.0, 0.0];
    let mut queue = DirtyMeshQueue::default();

    for coord in [near, far] {
        let mut chunk = Chunk::new_empty(coord);
        chunk.set_block(0, 0, 0, STONE_BLOCK);
        world.insert_chunk(chunk);
    }

    queue.enqueue(far);
    queue.enqueue(near);
    let keys: Vec<ChunkPriority> = queue
        .pending()
        .iter()
        .map(|&coord| {
            let sight = SightedChunk { coord, visible: true, depth_key: depth_key(eye, forward, coord) };
            chunk_render_priority_key(&world, center, sight, settings)
        })
        .collect();
    queue.prioritize(&keys);

    assert_eq!(queue.pop_dirty(&world), Some(near));
    assert_eq!(queue.pop_dirty(&world), Some(far));
}

#[test]
fn chunk_streaming_state_skips_loaded_chunks() {
    let center = ChunkCoord::new(0, 0, 0);
    let settings = WorldStreamingSettings::prototype();
    let mut state = ChunkStreamingState::new(settings);
    let world = world_with_empty_chunks([center]);
    let mut coords = Vec::new();
    push_near_streaming_coords(center, settings.render_radius, settings.render_radius, &mut coords);
    let key = StreamingViewKey { center, radius: settings.render_radius, yaw_bucket: 0, pitch_bucket: 0 };

    assert!(state.update_view(key, coords));

    let first_missing = state.pop_missing(&world);

    assert_ne!(first_missing, Some(center));
    assert!(state.pending_count() > 0);
}

#[test]
fn initial_world_preload_coords_include_center_and_respect_cap() {
    let center = ChunkCoord::new(1, 1, 2);
    let settings = WorldStreamingSettings::new(99, 99, 99, 99, 99, 100);
    let limit = 128;
    let mut streamed = Vec::new();
    push_near_streaming_coords(center, settings.render_radius, 4, &mut streamed);
    let coords = limit_preload_coords(streamed, center, limit);

    assert!(coords.contains(&center));
    assert!(coords.len() <= limit + 1);
}

#[test]
fn integer_settings_trim_unicode_space_and_read_signs() {
    assert_eq!(parse_clamped_i32_setting("\u{3000}+17\u{a0}\t", 4, 5, 30), 17);
    assert_eq!(parse_clamped_i32_setting("\u{2028}-1\u{85}", 4, 5, 30), 5);
    assert_eq!(parse_clamped_i32_setting("+", 4, 5, 30), 30);
    assert_eq!(parse_clamped_i32_setting("1 2", 4, 5, 30), 30);
    assert_eq!(parse_clamped_i32_setting("9223372036854775807", 4, 5, 30), 30);
    assert_eq!(parse_clamped_i32_setting("-9223372036854775809", 4, 5, 30), 30);
    assert_eq!(parse_clamped_i32_setting("-9223372036854775808", 4, 5, 30), 5);
}
