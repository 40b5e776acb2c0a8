use vstd::prelude::*;

use crate::coords::ChunkCoord;
use crate::gameplay::{BlockInteraction, HOTBAR_SLOT_COUNT};
use crate::meshing::has_neighbor_coords;
use crate::ordering::{
    apply_order, entry_before, is_sorting_order, priority_lt, sorted_order, yzx_priority,
    ChunkPriority,
};
use crate::terrain::TerrainSource;
use crate::block_config::{block_label, block_label_spec};
use crate::voxels::{
    in_chunk, world_to_chunk_coord, BlockId, Chunk, ChunkView, AIR_BLOCK, CHUNK_SIZE,
};
use crate::world::{chunk_of, marked, offset_of, VoxelWorld, WorldStreamingSettings};

verus! {

/// Seed of the world the client plays.
pub const WORLD_SEED: u64 = 12345;

/// Chunk view distance used when no setting was saved.
pub const DEFAULT_RENDER_CHUNK_DISTANCE: i32 = 4;

/// Smallest chunk view distance.
pub const MIN_RENDER_CHUNK_DISTANCE: i32 = 5;

/// Largest chunk view distance.
pub const MAX_RENDER_CHUNK_DISTANCE: i32 = 30;

/// Largest vertical chunk view distance.
pub const MAX_VERTICAL_RENDER_CHUNK_DISTANCE: i32 = 2;

/// Radius of the chunks loaded before the first frame.
pub const INITIAL_SYNC_CHUNK_RADIUS: i32 = 1;

/// Most chunks kept loaded.
pub const MAX_ACTIVE_WORLD_CHUNKS: usize = 640;

/// Most chunk meshes kept for drawing.
pub const MAX_RENDERED_CHUNK_MESHES: usize = 512;

/// Most chunk coordinates streamed around one center.
pub const MAX_STREAMING_COORDS_PER_CENTER: usize = 640;

/// Most new chunk meshes queued per frame.
pub const MAX_NEW_RENDER_MESHES_QUEUED_PER_FRAME: usize = 3;

/// Most chunks waiting for a new mesh.
pub const MAX_DIRTY_MESH_QUEUE_BACKLOG: usize = 64;

/// Most meshing jobs pending at normal priority.
pub const MAX_PENDING_NORMAL_MESH_JOBS: usize = 8;

/// Most generation jobs pending.
pub const MAX_PENDING_GENERATION_JOBS: usize = 8;

/// Dirty chunks sent to meshing per frame.
pub const DIRTY_MESH_JOBS_PER_FRAME: usize = 1;

/// Chunks sent to generation per frame.
pub const CHUNK_GENERATION_JOBS_PER_FRAME: usize = 1;

// ---------------------------------------------------------------------------
// Startup options
// ---------------------------------------------------------------------------

/// How the renderer presents frames.
#[derive(Debug, Clone, Copy, PartialEq, Eq, Structural)]
pub struct RendererOptions {
    pub vsync: bool,
}

impl RendererOptions {
    pub fn new(vsync: bool) -> (o: Self)
        ensures
            o.vsync == vsync,
    {
        RendererOptions { vsync }
    }
}

impl Default for RendererOptions {
    /// Frames wait for vertical sync.
    fn default() -> (o: Self)
        ensures
            o.vsync,
    {
        RendererOptions { vsync: true }
    }
}

/// How the client was started.
#[derive(Debug, Clone, Copy, PartialEq, Eq, Structural)]
pub struct ClientOptions {
    pub no_window: bool,
    pub show_fps: bool,
    pub renderer: RendererOptions,
}

/// Some argument is exactly `flag`.
pub open spec fn has_arg(args: Seq<&str>, flag: Seq<char>) -> bool {
    exists|i: int| 0 <= i < args.len() && #[trigger] args[i]@ == flag
}

/// Whether two strings hold the same characters.
pub(crate) fn same_text(a: &str, b: &str) -> (eq: bool)
    ensures
        eq == (a@ == b@),
{
    let a = a.to_owned();
    let b = b.to_owned();
    a == b
}

impl ClientOptions {
    /// Reads the flags `--no-window`, `--fps-window` and `--no-vsync`; other
    /// arguments are ignored.
    pub fn from_args(args: &[&str]) -> (o: Self)
        ensures
            o.no_window == has_arg(args@, "--no-window"@),
            o.show_fps == has_arg(args@, "--fps-window"@),
            o.renderer.vsync == !has_arg(args@, "--no-vsync"@),
    {
        let mut no_window = false;
        let mut show_fps = false;
        let mut vsync = true;
        let mut i: usize = 0;
        while i < args.len()
            invariant
                0 <= i <= args@.len(),
                no_window == has_arg(args@.subrange(0, i as int), "--no-window"@),
                show_fps == has_arg(args@.subrange(0, i as int), "--fps-window"@),
                vsync == !has_arg(args@.subrange(0, i as int), "--no-vsync"@),
            decreases args@.len() - i,
        {
            let arg = args[i];
            let ghost before = args@.subrange(0, i as int);
            let ghost after = args@.subrange(0, i + 1);
            proof {
                reveal_strlit("--no-window");
                reveal_strlit("--fps-window");
                reveal_strlit("--no-vsync");
                assert("--no-window"@ != "--fps-window"@ && "--no-window"@ != "--no-vsync"@
                    && "--fps-window"@ != "--no-vsync"@) by {
                    assert("--no-window"@[2] != "--fps-window"@[2]);
                    assert("--no-window"@[5] != "--no-vsync"@[5]);
                    assert("--fps-window"@[2] != "--no-vsync"@[2]);
                }
                assert(after == before.push(arg));
                assert forall|flag: Seq<char>| has_arg(after, flag) <==> (has_arg(before, flag)
                    || arg@ == flag) by {
                    if has_arg(after, flag) && !has_arg(before, flag) {
                        let k = choose|k: int| 0 <= k < after.len() && #[trigger] after[k]@ == flag;
                        if k < before.len() {
                            assert(before[k]@ == flag);
                        }
                    }
                    if has_arg(before, flag) {
                        let k = choose|k: int| 0 <= k < before.len() && #[trigger] before[k]@ == flag;
                        assert(after[k]@ == flag);
                    }
                    if arg@ == flag {
                        assert(after[i as int]@ == flag);
                    }
                }
            }
            if same_text(arg, "--no-window") {
                no_window = true;
            } else if same_text(arg, "--fps-window") {
                show_fps = true;
            } else if same_text(arg, "--no-vsync") {
                vsync = false;
            }
            i = i + 1;
        }
        proof {
            assert(args@.subrange(0, args@.len() as int) == args@);
        }
        ClientOptions { no_window, show_fps, renderer: RendererOptions::new(vsync) }
    }
}

impl Default for ClientOptions {
    /// A window with vertical sync and without the frame counter.
    fn default() -> (o: Self)
        ensures
            !o.no_window,
            !o.show_fps,
            o.renderer.vsync,
    {
        ClientOptions { no_window: false, show_fps: false, renderer: RendererOptions::new(true) }
    }
}

// ---------------------------------------------------------------------------
// Settings
// ---------------------------------------------------------------------------

/// The editable settings fields.
#[derive(Debug, Clone, Copy, PartialEq, Eq, Structural)]
pub enum SettingsField {
    MouseSensitivity,
    ChunkViewDistance,
    Fov,
}

/// An ASCII decimal digit.
pub open spec fn is_digit(c: char) -> bool {
    '0' <= c <= '9'
}

/// Whether `character` may be typed into `field`: digits, and a decimal point except
/// in the chunk view distance.
pub fn is_settings_character_allowed(field: SettingsField, character: char) -> (allowed: bool)
    ensures
        allowed == (is_digit(character) || (character == '.' && field != SettingsField::ChunkViewDistance)),
{
    let digit = '0' <= character && character <= '9';
    match field {
        SettingsField::MouseSensitivity | SettingsField::Fov => digit || character == '.',
        SettingsField::ChunkViewDistance => digit,
    }
}

/// A character with the Unicode `White_Space` property.
pub open spec fn is_white_space(c: char) -> bool {
    let u = c as u32;
    ||| 0x09 <= u <= 0x0D
    ||| u == 0x20
    ||| u == 0x85
    ||| u == 0xA0
    ||| u == 0x1680
    ||| 0x2000 <= u <= 0x200A
    ||| u == 0x2028
    ||| u == 0x2029
    ||| u == 0x202F
    ||| u == 0x205F
    ||| u == 0x3000
}

/// The text without its leading white space.
pub open spec fn trim_start_text(s: Seq<char>) -> Seq<char>
    decreases s.len(),
{
    if s.len() > 0 && is_white_space(s[0]) {
        trim_start_text(s.drop_first())
    } else {
        s
    }
}

/// The text without its trailing white space.
pub open spec fn trim_end_text(s: Seq<char>) -> Seq<char>
    decreases s.len(),
{
    if s.len() > 0 && is_white_space(s.last()) {
        trim_end_text(s.drop_last())
    } else {
        s
    }
}

/// The text without leading and trailing white space.
pub open spec fn trimmed_text(s: Seq<char>) -> Seq<char> {
    trim_end_text(trim_start_text(s))
}

/// The value of a text of decimal digits.
pub open spec fn digits_value(s: Seq<char>) -> int
    decreases s.len(),
{
    if s.len() == 0 {
        0
    } else {
        digits_value(s.drop_last()) * 10 + (s.last() as int - '0' as int)
    }
}

/// The `i64` written by a text: an optional `+` or `-`, then at least one ASCII digit
/// and nothing else, with a value in the `i64` range; `None` for any other text.
pub open spec fn parsed_i64(s: Seq<char>) -> Option<i64> {
    let signed = s.len() > 0 && (s[0] == '+' || s[0] == '-');
    let body = if signed {
        s.drop_first()
    } else {
        s
    };
    let value = if signed && s[0] == '-' {
        -digits_value(body)
    } else {
        digits_value(body)
    };
    if body.len() > 0 && (forall|i: int| 0 <= i < body.len() ==> is_digit(#[trigger] body[i]))
        && i64::MIN <= value <= i64::MAX {
        Some(value as i64)
    } else {
        None
    }
}

/// Calls `str::trim`: the text with its leading and trailing characters of the Unicode
/// `White_Space` property removed, as std documents it.
#[verifier::external_body]
pub(crate) fn trim_text(s: &str) -> (t: &str)
    ensures
        t@ == trimmed_text(s@),
{
    s.trim()
}

/// Calls `str::parse::<i64>`: the value of an optional sign followed by decimal digits,
/// or `None` for any other text or a value outside the `i64` range, as std documents
/// `i64::from_str`.
#[verifier::external_body]
pub(crate) fn parse_i64(s: &str) -> (v: Option<i64>)
    ensures
        v == parsed_i64(s@),
{
    s.parse::<i64>().ok()
}

/// `v` clamped into `[min, max]`.
pub open spec fn clamp_int(v: int, min: int, max: int) -> int {
    if v < min {
        min
    } else if v > max {
        max
    } else {
        v
    }
}

/// The value of a setting from its parsed text: the parsed value clamped into
/// `[min, max]`, or `max` when the text did not parse (too long, or not a number).
pub fn clamp_setting_value(parsed: Option<i64>, min: i32, max: i32) -> (v: i32)
    requires
        min <= max,
    ensures
        v == match parsed {
            Some(p) => clamp_int(p as int, min as int, max as int),
            None => max as int,
        },
{
    match parsed {
        Some(p) => {
            if p < min as i64 {
                min
            } else if p > max as i64 {
                max
            } else {
                p as i32
            }
        },
        None => max,
    }
}

/// The value of an integer setting typed as `input`: `fallback` for blank input,
/// else the trimmed text parsed and clamped into `[min, max]`, with `max` for text
/// that does not parse.
pub fn parse_clamped_i32_setting(input: &str, fallback: i32, min: i32, max: i32) -> (v: i32)
    requires
        min <= max,
    ensures
        ({
            let t = trimmed_text(input@);
            v == if t.len() == 0 {
                fallback as int
            } else {
                match parsed_i64(t) {
                    Some(p) => clamp_int(p as int, min as int, max as int),
                    None => max as int,
                }
            }
        }),
{
    let trimmed = trim_text(input);
    if trimmed.is_empty() {
        return fallback;
    }
    clamp_setting_value(parse_i64(trimmed), min, max)
}

/// The streaming radii for a chunk view distance: the distance clamped into the
/// allowed range everywhere, saving and unloading one chunk further out.
pub fn streaming_settings_for_view_distance(chunk_view_distance: i32) -> (s: WorldStreamingSettings)
    ensures
        ({
            let r = clamp_int(
                chunk_view_distance as int,
                MIN_RENDER_CHUNK_DISTANCE as int,
                MAX_RENDER_CHUNK_DISTANCE as int,
            );
            &&& s.horizontal_load_radius == r
            &&& s.vertical_load_radius == r
            &&& s.render_radius == r
            &&& s.simulation_radius == r
            &&& s.mob_ai_radius == r
            &&& s.save_unload_radius == r + 1
        }),
{
    let radius = if chunk_view_distance < MIN_RENDER_CHUNK_DISTANCE {
        MIN_RENDER_CHUNK_DISTANCE
    } else if chunk_view_distance > MAX_RENDER_CHUNK_DISTANCE {
        MAX_RENDER_CHUNK_DISTANCE
    } else {
        chunk_view_distance
    };
    WorldStreamingSettings::new(radius, radius, radius, radius, radius, radius + 1)
}

// ---------------------------------------------------------------------------
// Frame counter
// ---------------------------------------------------------------------------

/// Length of one frame-rate sample, in nanoseconds.
pub const FPS_SAMPLE_NANOS: u64 = 250_000_000;

/// Frames per second over `elapsed` nanoseconds, rounded to the nearest integer with
/// halves rounded up, saturated at `u32::MAX`.
pub open spec fn fps_of(frames: int, elapsed: int) -> int {
    let r = (2 * frames * 1_000_000_000 + elapsed) / (2 * elapsed);
    if r > u32::MAX {
        u32::MAX as int
    } else {
        r
    }
}

/// Counts frames and reports the frame rate once per sample period.
#[derive(Debug, Default)]
pub struct FpsCounter {
    sample_start: Option<u64>,
    frames_in_sample: u32,
}

/// The abstract state of a frame counter.
pub struct FpsCounterView {
    pub sample_start: Option<u64>,
    pub frames_in_sample: u32,
}

impl View for FpsCounter {
    type V = FpsCounterView;

    closed spec fn view(&self) -> FpsCounterView {
        FpsCounterView { sample_start: self.sample_start, frames_in_sample: self.frames_in_sample }
    }
}

impl FpsCounter {
    /// A counter that has seen no frame.
    pub fn new() -> (c: Self)
        ensures
            c@.sample_start is None,
            c@.frames_in_sample == 0,
    {
        FpsCounter { sample_start: None, frames_in_sample: 0 }
    }

    /// Frames counted in the current sample.
    pub fn frames_in_sample(&self) -> (n: u32)
        ensures
            n == self@.frames_in_sample,
    {
        self.frames_in_sample
    }

    /// Counts a frame shown at `now_nanos` (a monotonic clock in nanoseconds). Once a
    /// sample period has passed since the sample started, returns the frame rate over
    /// it and starts a new sample; time that goes backwards counts as none.
    pub fn record_frame(&mut self, now_nanos: u64) -> (fps: Option<u32>)
        requires
            old(self)@.frames_in_sample < u32::MAX,
        ensures
            ({
                let start = match old(self)@.sample_start {
                    Some(s) => s,
                    None => now_nanos,
                };
                let frames = old(self)@.frames_in_sample + 1;
                let elapsed = if now_nanos >= start {
                    now_nanos - start
                } else {
                    0
                };
                &&& elapsed < FPS_SAMPLE_NANOS ==> fps is None && final(self)@.sample_start
                    == Some(start) && final(self)@.frames_in_sample == frames
                &&& elapsed >= FPS_SAMPLE_NANOS ==> fps == Some(fps_of(frames, elapsed) as u32)
                    && final(self)@.sample_start == Some(now_nanos)
                    && final(self)@.frames_in_sample == 0
            }),
    {
        let start = match self.sample_start {
            Some(s) => s,
            None => now_nanos,
        };
        self.sample_start = Some(start);
        self.frames_in_sample = self.frames_in_sample + 1;
        let elapsed = if now_nanos >= start {
            now_nanos - start
        } else {
            0
        };
        if elapsed < FPS_SAMPLE_NANOS {
            return None;
        }
        let frames = self.frames_in_sample as u128;
        let e = elapsed as u128;
        proof {
            assert(frames * 2000000000 <= 0xFFFF_FFFFu128 * 2000000000) by (nonlinear_arith)
                requires
                    frames <= 0xFFFF_FFFFu128,
            ;
        }
        let r = (2 * frames * 1_000_000_000 + e) / (2 * e);
        let fps: u32 = if r > u32::MAX as u128 {
            u32::MAX
        } else {
            r as u32
        };
        self.sample_start = Some(now_nanos);
        self.frames_in_sample = 0;
        Some(fps)
    }
}

// ---------------------------------------------------------------------------
// Input
// ---------------------------------------------------------------------------

/// The keys the game reacts to.
#[derive(Debug, Clone, Copy, PartialEq, Eq, Structural)]
pub enum GameKey {
    KeyW,
    KeyS,
    KeyA,
    KeyD,
    Space,
    AltLeft,
    AltRight,
    ShiftLeft,
    ShiftRight,
    ControlLeft,
    ControlRight,
    Digit1,
    Digit2,
    Digit3,
    Digit4,
    Digit5,
    Digit6,
    Digit7,
    Digit8,
    Digit9,
    Escape,
    KeyV,
    Tab,
    Backspace,
    Enter,
    Other,
}

/// Which movement keys are held.
#[derive(Debug, Default, Clone, Copy, PartialEq, Eq, Structural)]
pub struct InputState {
    pub forward: bool,
    pub backward: bool,
    pub left: bool,
    pub right: bool,
    pub up: bool,
    pub down: bool,
    pub slow: bool,
    pub fast: bool,
    pub breaking: bool,
}

impl InputState {
    /// Records a key press or release: W/S forward and backward, A/D left and right,
    /// space up, Alt down, Shift fast, Control slow; other keys change nothing.
    pub fn set_key(&mut self, key: GameKey, pressed: bool)
        ensures
            *final(self) == (match key {
                GameKey::KeyW => InputState { forward: pressed, ..*old(self) },
                GameKey::KeyS => InputState { backward: pressed, ..*old(self) },
                GameKey::KeyA => InputState { left: pressed, ..*old(self) },
                GameKey::KeyD => InputState { right: pressed, ..*old(self) },
                GameKey::Space => InputState { up: pressed, ..*old(self) },
                GameKey::AltLeft | GameKey::AltRight => InputState { down: pressed, ..*old(self) },
                GameKey::ShiftLeft | GameKey::ShiftRight => InputState { fast: pressed, ..*old(self) },
                GameKey::ControlLeft | GameKey::ControlRight => InputState {
                    slow: pressed,
                    ..*old(self)
                },
                _ => *old(self),
            }),
    {
        match key {
            GameKey::KeyW => self.forward = pressed,
            GameKey::KeyS => self.backward = pressed,
            GameKey::KeyA => self.left = pressed,
            GameKey::KeyD => self.right = pressed,
            GameKey::Space => self.up = pressed,
            GameKey::AltLeft | GameKey::AltRight => self.down = pressed,
            GameKey::ShiftLeft | GameKey::ShiftRight => self.fast = pressed,
            GameKey::ControlLeft | GameKey::ControlRight => self.slow = pressed,
            _ => {},
        }
    }

    /// Sprinting needs fast and forward held, and neither backward nor slow.
    pub fn can_sprint_forward(self) -> (b: bool)
        ensures
            b == (self.fast && self.forward && !self.backward && !self.slow),
    {
        self.fast && self.forward && !self.backward && !self.slow
    }
}

/// Direction of an axis from its two keys: 1, -1, or 0 when both or neither are held.
pub fn axis_sign(positive: bool, negative: bool) -> (s: i8)
    ensures
        s == (if positive && !negative {
            1int
        } else if negative && !positive {
            -1int
        } else {
            0int
        }),
{
    if positive && !negative {
        1
    } else if negative && !positive {
        -1
    } else {
        0
    }
}

/// The hotbar slot a digit key selects: keys 1 to 9 select slots 0 to 8.
pub fn hotbar_slot_for_key(key: GameKey) -> (slot: Option<usize>)
    ensures
        slot == (match key {
            GameKey::Digit1 => Some(0usize),
            GameKey::Digit2 => Some(1usize),
            GameKey::Digit3 => Some(2usize),
            GameKey::Digit4 => Some(3usize),
            GameKey::Digit5 => Some(4usize),
            GameKey::Digit6 => Some(5usize),
            GameKey::Digit7 => Some(6usize),
            GameKey::Digit8 => Some(7usize),
            GameKey::Digit9 => Some(8usize),
            _ => None,
        }),
{
    let slot: usize = match key {
        GameKey::Digit1 => 0,
        GameKey::Digit2 => 1,
        GameKey::Digit3 => 2,
        GameKey::Digit4 => 3,
        GameKey::Digit5 => 4,
        GameKey::Digit6 => 5,
        GameKey::Digit7 => 6,
        GameKey::Digit8 => 7,
        GameKey::Digit9 => 8,
        _ => return None,
    };
    if slot < HOTBAR_SLOT_COUNT {
        Some(slot)
    } else {
        None
    }
}

// ---------------------------------------------------------------------------
// Chunks around the player
// ---------------------------------------------------------------------------

/// Squared distance, in chunks, between two chunk coordinates.
pub open spec fn chunk_dist_sq(center: ChunkCoord, coord: ChunkCoord) -> int {
    (coord.x - center.x) * (coord.x - center.x) + (coord.y - center.y) * (coord.y - center.y) + (
    coord.z - center.z) * (coord.z - center.z)
}

/// Squared chunk distance that fits an `i32`.
pub open spec fn chunk_dist_fits(center: ChunkCoord, coord: ChunkCoord) -> bool {
    &&& i32::MIN <= coord.x - center.x <= i32::MAX
    &&& i32::MIN <= coord.y - center.y <= i32::MAX
    &&& i32::MIN <= coord.z - center.z <= i32::MAX
    &&& chunk_dist_sq(center, coord) <= i32::MAX
}

/// Squared distance, in chunks, from `center` to `coord`.
pub fn chunk_distance_key(center: ChunkCoord, coord: ChunkCoord) -> (d: i32)
    requires
        chunk_dist_fits(center, coord),
    ensures
        d == chunk_dist_sq(center, coord),
{
    let dx = coord.x - center.x;
    let dy = coord.y - center.y;
    let dz = coord.z - center.z;
    proof {
        assert(0 <= dx * dx && 0 <= dy * dy && 0 <= dz * dz) by (nonlinear_arith);
    }
    dx * dx + dy * dy + dz * dz
}

/// Whether `coord` lies within the render radius of `center` (a sphere; a negative
/// radius counts as 0).
pub fn chunk_within_render_distance(
    center: ChunkCoord,
    coord: ChunkCoord,
    settings: WorldStreamingSettings,
) -> (b: bool)
    requires
        chunk_dist_fits(center, coord),
        settings.render_radius * settings.render_radius <= i32::MAX,
    ensures
        b == (chunk_dist_sq(center, coord) <= (if settings.render_radius < 0 {
            0
        } else {
            settings.render_radius * settings.render_radius
        })),
{
    let radius = if settings.render_radius < 0 {
        0
    } else {
        settings.render_radius
    };
    proof {
        assert(radius * radius <= i32::MAX) by (nonlinear_arith)
            requires
                radius == 0 || radius == settings.render_radius,
                settings.render_radius * settings.render_radius <= i32::MAX,
        ;
        assert(radius * radius >= 0) by (nonlinear_arith);
    }
    chunk_distance_key(center, coord) <= radius * radius
}

/// The chunk above `coord`.
pub open spec fn above_of(coord: ChunkCoord) -> ChunkCoord {
    offset_of(coord, 0, 1, 0)
}

/// Air lies above local `(x, y, z)` of `chunk` at `coord`: in the chunk itself, or at
/// the bottom of the loaded chunk above; not when that chunk is not loaded.
pub open spec fn air_above(
    m: Map<ChunkCoord, ChunkView>,
    coord: ChunkCoord,
    chunk: ChunkView,
    x: int,
    y: int,
    z: int,
) -> bool {
    if y + 1 < 32 {
        chunk.block(x, y + 1, z) == AIR_BLOCK
    } else {
        m.contains_key(above_of(coord)) && m[above_of(coord)].block(x, 0, z) == AIR_BLOCK
    }
}

/// `y` holds the topmost solid block of column `(x, z)`.
pub open spec fn is_top_solid(chunk: ChunkView, x: int, y: int, z: int) -> bool {
    &&& 0 <= y < 32
    &&& chunk.block(x, y, z) != AIR_BLOCK
    &&& forall|y2: int| y < y2 < 32 ==> #[trigger] chunk.block(x, y2, z) == AIR_BLOCK
}

/// Some column of `chunk` has air above its topmost solid block.
pub open spec fn sky_exposed(m: Map<ChunkCoord, ChunkView>, coord: ChunkCoord, chunk: ChunkView) -> bool {
    exists|x: int, y: int, z: int|
        0 <= x < 32 && 0 <= z < 32 && #[trigger] is_top_solid(chunk, x, y, z) && air_above(
            m,
            coord,
            chunk,
            x,
            y,
            z,
        )
}

/// Whether air lies above local `(x, y, z)` of `chunk` at `coord`.
pub fn block_has_loaded_air_above<T: TerrainSource>(
    world: &VoxelWorld<T>,
    coord: ChunkCoord,
    chunk: &Chunk,
    x: usize,
    y: usize,
    z: usize,
) -> (b: bool)
    requires
        world.wf(),
        chunk.wf(),
        in_chunk(x as int, y as int, z as int),
        coord.y < i32::MAX,
    ensures
        b == air_above(world@, coord, chunk@, x as int, y as int, z as int),
{
    if y + 1 < CHUNK_SIZE {
        return chunk.get_block(x, y + 1, z) == AIR_BLOCK;
    }
    match world.get_chunk(coord.offset(0, 1, 0)) {
        Some(above) => above.get_block(x, 0, z) == AIR_BLOCK,
        None => false,
    }
}

/// Whether some column of `chunk` has air above its topmost solid block.
pub fn chunk_has_sky_exposed_surface<T: TerrainSource>(
    world: &VoxelWorld<T>,
    coord: ChunkCoord,
    chunk: &Chunk,
) -> (b: bool)
    requires
        world.wf(),
        chunk.wf(),
        coord.y < i32::MAX,
    ensures
        b == sky_exposed(world@, coord, chunk@),
{
    let mut z: usize = 0;
    while z < CHUNK_SIZE
        invariant
            world.wf(),
            chunk.wf(),
            coord.y < i32::MAX,
            0 <= z <= 32,
            forall|x: int, y: int, zz: int|
                0 <= x < 32 && 0 <= zz < z && #[trigger] is_top_solid(chunk@, x, y, zz) ==> !air_above(
                    world@,
                    coord,
                    chunk@,
                    x,
                    y,
                    zz,
                ),
        decreases 32 - z,
    {
        let mut x: usize = 0;
        while x < CHUNK_SIZE
            invariant
                world.wf(),
                chunk.wf(),
                coord.y < i32::MAX,
                0 <= z < 32,
                0 <= x <= 32,
                forall|xx: int, y: int, zz: int|
                    0 <= xx < 32 && 0 <= zz < z && #[trigger] is_top_solid(chunk@, xx, y, zz)
                        ==> !air_above(world@, coord, chunk@, xx, y, zz),
                forall|xx: int, y: int|
                    0 <= xx < x && #[trigger] is_top_solid(chunk@, xx, y, z as int) ==> !air_above(
                        world@,
                        coord,
                        chunk@,
                        xx,
                        y,
                        z as int,
                    ),
            decreases 32 - x,
        {
            let mut y: usize = CHUNK_SIZE;
            while y > 0
                invariant
                    world.wf(),
                    chunk.wf(),
                    coord.y < i32::MAX,
                    0 <= z < 32,
                    0 <= x < 32,
                    0 <= y <= 32,
                    forall|y2: int| y <= y2 < 32 ==> #[trigger] chunk@.block(x as int, y2, z as int)
                        == AIR_BLOCK,
                ensures
                    forall|y3: int| #[trigger] is_top_solid(chunk@, x as int, y3, z as int) ==> !air_above(
                        world@,
                        coord,
                        chunk@,
                        x as int,
                        y3,
                        z as int,
                    ),
                decreases y,
            {
                let yy = y - 1;
                if chunk.get_block(x, yy, z) == AIR_BLOCK {
                    y = yy;
                    if y == 0 {
                        proof {
                            assert forall|y3: int| #[trigger] is_top_solid(chunk@, x as int, y3, z as int) implies !air_above(
                                world@,
                                coord,
                                chunk@,
                                x as int,
                                y3,
                                z as int,
                            ) by {
                                assert(chunk@.block(x as int, y3, z as int) == AIR_BLOCK);
                            }
                        }
                    }
                    continue;
                }
                proof {
                    assert(is_top_solid(chunk@, x as int, yy as int, z as int));
                }
                if block_has_loaded_air_above(world, coord, chunk, x, yy, z) {
                    return true;
                }
                proof {
                    assert forall|y3: int| #[trigger] is_top_solid(chunk@, x as int, y3, z as int) implies y3 == yy by {
                        if y3 < yy {
                            assert(chunk@.block(x as int, yy as int, z as int) == AIR_BLOCK);
                        }
                        if y3 > yy {
                            assert(chunk@.block(x as int, y3, z as int) == AIR_BLOCK);
                        }
                    }
                }
                break;
            }
            x = x + 1;
        }
        z = z + 1;
    }
    false
}

/// A chunk is part of the drawn skin of the world when it is loaded, holds a solid
/// block, and has a column with air above its topmost solid block.
pub fn chunk_is_render_skin<T: TerrainSource>(world: &VoxelWorld<T>, coord: ChunkCoord) -> (b: bool)
    requires
        world.wf(),
        coord.y < i32::MAX,
    ensures
        b == (world@.contains_key(coord) && world@[coord].solid_block_count != 0 && sky_exposed(
            world@,
            coord,
            world@[coord],
        )),
{
    let chunk = match world.get_chunk(coord) {
        Some(c) => c,
        None => return false,
    };
    if chunk.is_empty() {
        return false;
    }
    chunk_has_sky_exposed_surface(world, coord, chunk)
}

/// The chunk at `coord` lies within the render distance of `center` and is part of the
/// drawn skin of the world: loaded, not empty, and open to the sky somewhere.
pub open spec fn render_candidate(
    m: Map<ChunkCoord, ChunkView>,
    center: ChunkCoord,
    coord: ChunkCoord,
    settings: WorldStreamingSettings,
) -> bool {
    &&& chunk_dist_sq(center, coord) <= (if settings.render_radius < 0 {
        0
    } else {
        settings.render_radius * settings.render_radius
    })
    &&& m.contains_key(coord)
    &&& m[coord].solid_block_count != 0
    &&& sky_exposed(m, coord, m[coord])
}

/// A chunk is a render candidate when it lies within the render distance and is part
/// of the drawn skin of the world.
pub fn chunk_is_render_candidate<T: TerrainSource>(
    world: &VoxelWorld<T>,
    center: ChunkCoord,
    coord: ChunkCoord,
    settings: WorldStreamingSettings,
) -> (b: bool)
    requires
        world.wf(),
        coord.y < i32::MAX,
        chunk_dist_fits(center, coord),
        settings.render_radius * settings.render_radius <= i32::MAX,
    ensures
        b == render_candidate(world@, center, coord, settings),
{
    chunk_within_render_distance(center, coord, settings) && chunk_is_render_skin(world, coord)
}

/// The six face neighbors of a chunk, in `+x, -x, +y, -y, +z, -z` order.
pub open spec fn neighbor_seq(c: ChunkCoord) -> Seq<ChunkCoord> {
    seq![
        offset_of(c, 1, 0, 0),
        offset_of(c, -1, 0, 0),
        offset_of(c, 0, 1, 0),
        offset_of(c, 0, -1, 0),
        offset_of(c, 0, 0, 1),
        offset_of(c, 0, 0, -1),
    ]
}

/// The six face neighbors of `coord`, in `+x, -x, +y, -y, +z, -z` order.
pub fn neighbor_chunk_coords(coord: ChunkCoord) -> (r: [ChunkCoord; 6])
    requires
        has_neighbor_coords(coord),
    ensures
        r@ == neighbor_seq(coord),
{
    let r = [
        coord.offset(1, 0, 0),
        coord.offset(-1, 0, 0),
        coord.offset(0, 1, 0),
        coord.offset(0, -1, 0),
        coord.offset(0, 0, 1),
        coord.offset(0, 0, -1),
    ];
    assert(r@ =~= neighbor_seq(coord));
    r
}

/// Whether `coords` holds `coord`.
pub(crate) fn contains_coord(coords: &Vec<ChunkCoord>, coord: ChunkCoord) -> (b: bool)
    ensures
        b == coords@.contains(coord),
{
    let mut i: usize = 0;
    while i < coords.len()
        invariant
            0 <= i <= coords@.len(),
            forall|j: int| 0 <= j < i ==> coords@[j] != coord,
        decreases coords@.len() - i,
    {
        if coords[i] == coord {
            assert(coords@[i as int] == coord);
            return true;
        }
        i = i + 1;
    }
    false
}

/// Appends `coord` unless `coords` already holds it.
pub fn push_unique_chunk_coord(coords: &mut Vec<ChunkCoord>, coord: ChunkCoord)
    ensures
        final(coords)@ == (if old(coords)@.contains(coord) {
            old(coords)@
        } else {
            old(coords)@.push(coord)
        }),
{
    if !contains_coord(coords, coord) {
        coords.push(coord);
    }
}

/// `s` with repeated coordinates dropped, first occurrences kept in order.
pub open spec fn dedup_coords(s: Seq<ChunkCoord>) -> Seq<ChunkCoord>
    decreases s.len(),
{
    if s.len() == 0 {
        s
    } else {
        let d = dedup_coords(s.drop_last());
        if d.contains(s.last()) {
            d
        } else {
            d.push(s.last())
        }
    }
}

/// Dropping repeats leaves each coordinate once, and only coordinates of `s`.
pub proof fn lemma_dedup_coords(s: Seq<ChunkCoord>)
    ensures
        dedup_coords(s).no_duplicates(),
        forall|x: ChunkCoord| #[trigger] dedup_coords(s).contains(x) ==> s.contains(x),
    decreases s.len(),
{
    if s.len() > 0 {
        let d = dedup_coords(s.drop_last());
        lemma_dedup_coords(s.drop_last());
        assert forall|x: ChunkCoord| #[trigger] dedup_coords(s).contains(x) implies s.contains(x) by {
            if d.contains(x) {
                assert(s.drop_last().contains(x));
                let a = choose|a: int| 0 <= a < s.drop_last().len() && s.drop_last()[a] == x;
                assert(s[a] == x);
            } else {
                assert(x == s.last());
                assert(s[s.len() - 1] == x);
            }
        }
        if !d.contains(s.last()) {
            assert forall|a: int, b: int| 0 <= a < b < d.push(s.last()).len() implies d.push(
                s.last(),
            )[a] != d.push(s.last())[b] by {
                if b == d.len() {
                    assert(d.push(s.last())[a] == d[a]);
                    assert(d.contains(d[a]));
                }
            }
        }
    }
}

/// Appends the coordinates of `more` that `coords` does not hold yet.
fn push_unique_all(coords: &mut Vec<ChunkCoord>, more: &[ChunkCoord], Ghost(s): Ghost<Seq<ChunkCoord>>)
    requires
        old(coords)@ == dedup_coords(s),
    ensures
        final(coords)@ == dedup_coords(s + more@),
{
    let mut i: usize = 0;
    while i < more.len()
        invariant
            0 <= i <= more@.len(),
            coords@ == dedup_coords(s + more@.subrange(0, i as int)),
        decreases more@.len() - i,
    {
        proof {
            let t = s + more@.subrange(0, i + 1);
            assert(t.drop_last() =~= s + more@.subrange(0, i as int));
            assert(t.last() == more@[i as int]);
        }
        push_unique_chunk_coord(coords, more[i]);
        i = i + 1;
    }
    proof {
        assert(more@.subrange(0, more@.len() as int) =~= more@);
    }
}

/// The chunks whose meshes an interaction changed first, each once: for a break the
/// hit chunk and its neighbors; for a place the placed block's chunk, the hit chunk,
/// and the neighbors of each; nothing otherwise.
pub open spec fn interaction_priority_spec(interaction: BlockInteraction) -> Seq<ChunkCoord> {
    match interaction {
        BlockInteraction::Break { hit, .. } => dedup_coords(
            seq![hit.chunk_coord] + neighbor_seq(hit.chunk_coord),
        ),
        BlockInteraction::Place { hit, placed_block, .. } => dedup_coords(
            seq![chunk_of(placed_block), hit.chunk_coord] + neighbor_seq(chunk_of(placed_block))
                + neighbor_seq(hit.chunk_coord),
        ),
        _ => Seq::empty(),
    }
}

/// The chunks an interaction may have changed have neighbors in the coordinate range.
pub open spec fn interaction_in_range(interaction: BlockInteraction) -> bool {
    match interaction {
        BlockInteraction::Break { hit, .. } => has_neighbor_coords(hit.chunk_coord),
        BlockInteraction::Place { hit, placed_block, .. } => has_neighbor_coords(hit.chunk_coord)
            && has_neighbor_coords(chunk_of(placed_block)),
        _ => true,
    }
}

/// The chunks to mesh first after an interaction, each once.
pub fn interaction_priority_chunks(interaction: BlockInteraction) -> (coords: Vec<ChunkCoord>)
    requires
        interaction_in_range(interaction),
    ensures
        coords@ == interaction_priority_spec(interaction),
{
    let mut coords: Vec<ChunkCoord> = Vec::new();
    match interaction {
        BlockInteraction::Break { hit, .. } => {
            proof {
                assert(coords@ == dedup_coords(Seq::<ChunkCoord>::empty()));
            }
            let first = [hit.chunk_coord];
            push_unique_all(&mut coords, &first, Ghost(Seq::empty()));
            let n = neighbor_chunk_coords(hit.chunk_coord);
            push_unique_all(&mut coords, &n, Ghost(first@));
            proof {
                assert(Seq::<ChunkCoord>::empty() + first@ =~= first@);
                assert(first@ =~= seq![hit.chunk_coord]);
            }
        },
        BlockInteraction::Place { hit, placed_block, .. } => {
            let placed_coord = world_to_chunk_coord(placed_block.x, placed_block.y, placed_block.z);
            proof {
                assert(coords@ == dedup_coords(Seq::<ChunkCoord>::empty()));
                assert(placed_coord == chunk_of(placed_block));
            }
            let first = [placed_coord, hit.chunk_coord];
            push_unique_all(&mut coords, &first, Ghost(Seq::empty()));
            let n1 = neighbor_chunk_coords(placed_coord);
            push_unique_all(&mut coords, &n1, Ghost(first@));
            let n2 = neighbor_chunk_coords(hit.chunk_coord);
            push_unique_all(&mut coords, &n2, Ghost(first@ + n1@));
            proof {
                assert(Seq::<ChunkCoord>::empty() + first@ =~= first@);
                assert(first@ =~= seq![placed_coord, hit.chunk_coord]);
            }
        },
        _ => {
            proof {
                assert(coords@ =~= Seq::<ChunkCoord>::empty());
            }
        },
    }
    coords
}

/// The chunks an interaction edited: the hit chunk for a break, the placed block's
/// chunk for a place, none otherwise.
pub fn interaction_modified_chunks(interaction: BlockInteraction) -> (coords: Vec<ChunkCoord>)
    ensures
        coords@ == match interaction {
            BlockInteraction::Break { hit, .. } => seq![hit.chunk_coord],
            BlockInteraction::Place { placed_block, .. } => seq![chunk_of(placed_block)],
            _ => Seq::<ChunkCoord>::empty(),
        },
{
    match interaction {
        BlockInteraction::Break { hit, .. } => {
            let v = vec![hit.chunk_coord];
            assert(v@ =~= seq![hit.chunk_coord]);
            v
        },
        BlockInteraction::Place { placed_block, .. } => {
            let c = world_to_chunk_coord(placed_block.x, placed_block.y, placed_block.z);
            let v = vec![c];
            assert(v@ =~= seq![chunk_of(placed_block)]);
            v
        },
        _ => {
            let v: Vec<ChunkCoord> = Vec::new();
            assert(v@ =~= Seq::<ChunkCoord>::empty());
            v
        },
    }
}

/// Blocks an interaction changed.
pub fn changed_block_count(interaction: BlockInteraction) -> (n: usize)
    ensures
        n == match interaction {
            BlockInteraction::Break { summary, .. } => summary.changed_blocks,
            BlockInteraction::Place { summary, .. } => summary.changed_blocks,
            _ => 0usize,
        },
{
    match interaction {
        BlockInteraction::Break { summary, .. } => summary.changed_blocks,
        BlockInteraction::Place { summary, .. } => summary.changed_blocks,
        _ => 0,
    }
}

/// `m` with every subchunk of each loaded chunk of `coords` marked dirty.
pub open spec fn all_marked(m: Map<ChunkCoord, ChunkView>, coords: Seq<ChunkCoord>) -> Map<
    ChunkCoord,
    ChunkView,
> {
    Map::new(
        |c: ChunkCoord| m.contains_key(c),
        |c: ChunkCoord|
            if coords.contains(c) {
                marked(m[c], 0xFFu8)
            } else {
                m[c]
            },
    )
}

/// The loaded coordinates of `coords`, in order.
pub open spec fn loaded_coords(m: Map<ChunkCoord, ChunkView>, coords: Seq<ChunkCoord>) -> Seq<
    ChunkCoord,
> {
    coords.filter(|c: ChunkCoord| m.contains_key(c))
}

/// Marks a newly streamed chunk and its loaded neighbors wholly dirty, so that faces
/// against the new chunk are drawn again. Returns the loaded ones among the chunk and
/// its neighbors, in `self, +x, -x, +y, -y, +z, -z` order.
pub fn mark_streamed_chunk_dirty<T: TerrainSource>(world: &mut VoxelWorld<T>, coord: ChunkCoord) -> (dirty: Vec<ChunkCoord>)
    requires
        old(world).wf(),
        has_neighbor_coords(coord),
    ensures
        final(world).wf(),
        ({
            let targets = seq![coord] + neighbor_seq(coord);
            &&& dirty@ == loaded_coords(old(world)@, targets)
            &&& final(world)@ == all_marked(old(world)@, targets)
        }),
        final(world).seed_spec() == old(world).seed_spec(),
        final(world).terrain_spec() == old(world).terrain_spec(),
{
    let n = neighbor_chunk_coords(coord);
    let targets = [coord, n[0], n[1], n[2], n[3], n[4], n[5]];
    let ghost start = world@;
    let ghost ts = seq![coord] + neighbor_seq(coord);
    proof {
        assert(targets@ =~= ts);
        assert(ts.subrange(0, 0) =~= Seq::<ChunkCoord>::empty());
        assert(world@ =~= all_marked(start, Seq::<ChunkCoord>::empty()));
        assert(loaded_coords(start, Seq::<ChunkCoord>::empty()) =~= Seq::<ChunkCoord>::empty());
    }
    let mut dirty: Vec<ChunkCoord> = Vec::new();
    let mut i: usize = 0;
    while i < 7
        invariant
            world.wf(),
            has_neighbor_coords(coord),
            ts == seq![coord] + neighbor_seq(coord),
            targets@ == ts,
            ts.len() == 7,
            0 <= i <= 7,
            dirty@ == loaded_coords(start, ts.subrange(0, i as int)),
            world@ == all_marked(start, ts.subrange(0, i as int)),
            world.seed_spec() == old(world).seed_spec(),
            world.terrain_spec() == old(world).terrain_spec(),
        decreases 7 - i,
    {
        let c = targets[i];
        let ghost pre = ts.subrange(0, i as int);
        let ghost post = ts.subrange(0, i + 1);
        proof {
            assert(post =~= pre.push(c));
            assert(pre.push(c).drop_last() =~= pre);
        }
        let found = world.mark_all_subchunks_dirty(c);
        if found {
            dirty.push(c);
        }
        proof {
            reveal(Seq::filter);
            assert(loaded_coords(start, post) =~= if start.contains_key(c) {
                loaded_coords(start, pre).push(c)
            } else {
                loaded_coords(start, pre)
            });
            assert forall|d: ChunkCoord| post.contains(d) <==> (pre.contains(d) || d == c) by {
                if post.contains(d) && !pre.contains(d) {
                    let k = choose|k: int| 0 <= k < post.len() && post[k] == d;
                    if k < pre.len() {
                        assert(pre[k] == d);
                    }
                }
                if pre.contains(d) {
                    let k = choose|k: int| 0 <= k < pre.len() && pre[k] == d;
                    assert(post[k] == d);
                }
                if d == c {
                    assert(post[i as int] == d);
                }
            }
            assert(!pre.contains(c)) by {
                if pre.contains(c) {
                    let k = choose|k: int| 0 <= k < pre.len() && pre[k] == c;
                    lemma_targets_distinct(coord, k, i as int);
                }
            }
            assert(world@ =~= all_marked(start, post));
        }
        i = i + 1;
    }
    proof {
        assert(ts.subrange(0, 7) =~= ts);
    }
    dirty
}

/// A chunk and its six neighbors are seven different chunks.
proof fn lemma_targets_distinct(coord: ChunkCoord, a: int, b: int)
    requires
        has_neighbor_coords(coord),
        0 <= a < b < 7,
    ensures
        (seq![coord] + neighbor_seq(coord))[a] != (seq![coord] + neighbor_seq(coord))[b],
{
}

/// The lowest chunk layer the view rays stream: `below_surface` layers under the
/// surface layer when the center is at or above it, else `near_limit` layers under the
/// center.
pub fn visible_ray_min_chunk_y(center: ChunkCoord, below_surface: i32, near_limit: i32) -> (y: i32)
    requires
        center.y >= 0 ==> below_surface > i32::MIN,
        center.y < 0 ==> i32::MIN <= center.y - near_limit <= i32::MAX,
    ensures
        y == if center.y >= 0 {
            -below_surface
        } else {
            center.y - near_limit
        },
{
    if center.y >= 0 {
        -below_surface
    } else {
        center.y - near_limit
    }
}

/// The radius of the near streaming sphere: the render radius, at most `near_limit`,
/// and not negative.
pub open spec fn near_radius(render_radius: i32, near_limit: i32) -> int {
    let r = if render_radius < near_limit {
        render_radius
    } else {
        near_limit
    };
    if r < 0 {
        0
    } else {
        r as int
    }
}

/// The chunks of the sphere of radius `r` around `center`, from offset `(dx, dy, dz)`
/// on, in `dy`, then `dz`, then `dx` order.
pub open spec fn near_from(center: ChunkCoord, r: int, dy: int, dz: int, dx: int) -> Seq<ChunkCoord>
    decreases r - dy, r - dz, r - dx,
{
    if !(-r <= dy <= r && -r <= dz <= r && -r <= dx <= r) {
        Seq::empty()
    } else {
        let here = if dx * dx + dy * dy + dz * dz <= r * r {
            seq![offset_of(center, dx, dy, dz)]
        } else {
            Seq::empty()
        };
        let rest = if dx < r {
            near_from(center, r, dy, dz, dx + 1)
        } else if dz < r {
            near_from(center, r, dy, dz + 1, -r)
        } else if dy < r {
            near_from(center, r, dy + 1, -r, -r)
        } else {
            Seq::empty()
        };
        here + rest
    }
}

/// Adding `a` then `b` adds `a + b`.
pub proof fn lemma_enqueued_all_append(p: Seq<ChunkCoord>, a: Seq<ChunkCoord>, b: Seq<ChunkCoord>)
    ensures
        enqueued_all(p, a + b) == enqueued_all(enqueued_all(p, a), b),
    decreases b.len(),
{
    if b.len() == 0 {
        assert(a + b =~= a);
    } else {
        lemma_enqueued_all_append(p, a, b.drop_last());
        assert((a + b).drop_last() =~= a + b.drop_last());
        assert((a + b).last() == b.last());
    }
}

/// Appends the chunks of the near sphere around `center` (radius: the render radius,
/// at most `near_limit`, not negative) that `coords` does not hold yet, in `dy`, `dz`,
/// `dx` order.
pub fn push_near_streaming_coords(
    center: ChunkCoord,
    render_radius: i32,
    near_limit: i32,
    coords: &mut Vec<ChunkCoord>,
)
    requires
        3 * near_radius(render_radius, near_limit) * near_radius(render_radius, near_limit)
            <= i32::MAX,
        i32::MIN <= center.x - near_radius(render_radius, near_limit),
        center.x + near_radius(render_radius, near_limit) <= i32::MAX,
        i32::MIN <= center.y - near_radius(render_radius, near_limit),
        center.y + near_radius(render_radius, near_limit) <= i32::MAX,
        i32::MIN <= center.z - near_radius(render_radius, near_limit),
        center.z + near_radius(render_radius, near_limit) <= i32::MAX,
    ensures
        ({
            let r = near_radius(render_radius, near_limit);
            final(coords)@ == enqueued_all(old(coords)@, near_from(center, r, -r, -r, -r))
        }),
{
    let mut radius = if render_radius < near_limit {
        render_radius
    } else {
        near_limit
    };
    if radius < 0 {
        radius = 0;
    }
    let ghost r = radius as int;
    let ghost target = enqueued_all(coords@, near_from(center, r, -r, -r, -r));
    proof {
        assert(enqueued_all(coords@, Seq::<ChunkCoord>::empty()) == coords@);
        assert(radius * radius <= i32::MAX && radius <= 46340) by (nonlinear_arith)
            requires
                3 * radius * radius <= i32::MAX,
                radius >= 0,
        ;
    }
    let mut dy: i32 = -radius;
    while dy <= radius
        invariant
            r == radius as int,
            0 <= r <= 46340,
            3 * r * r <= i32::MAX,
            -r <= dy <= r + 1,
            i32::MIN <= center.x - r && center.x + r <= i32::MAX,
            i32::MIN <= center.y - r && center.y + r <= i32::MAX,
            i32::MIN <= center.z - r && center.z + r <= i32::MAX,
            enqueued_all(coords@, near_from(center, r, dy as int, -r, -r)) == target,
        decreases r + 1 - dy,
    {
        let mut dz: i32 = -radius;
        while dz <= radius
            invariant
                r == radius as int,
                0 <= r <= 46340,
                3 * r * r <= i32::MAX,
                -r <= dy <= r,
                -r <= dz <= r + 1,
                i32::MIN <= center.x - r && center.x + r <= i32::MAX,
                i32::MIN <= center.y - r && center.y + r <= i32::MAX,
                i32::MIN <= center.z - r && center.z + r <= i32::MAX,
                enqueued_all(
                    coords@,
                    if dz <= r {
                        near_from(center, r, dy as int, dz as int, -r)
                    } else {
                        near_from(center, r, dy + 1, -r, -r)
                    },
                ) == target,
            decreases r + 1 - dz,
        {
            let mut dx: i32 = -radius;
            while dx <= radius
                invariant
                    r == radius as int,
                    0 <= r <= 46340,
                    3 * r * r <= i32::MAX,
                    -r <= dy <= r,
                    -r <= dz <= r,
                    -r <= dx <= r + 1,
                    i32::MIN <= center.x - r && center.x + r <= i32::MAX,
                    i32::MIN <= center.y - r && center.y + r <= i32::MAX,
                    i32::MIN <= center.z - r && center.z + r <= i32::MAX,
                    enqueued_all(
                        coords@,
                        if dx <= r {
                            near_from(center, r, dy as int, dz as int, dx as int)
                        } else if dz < r {
                            near_from(center, r, dy as int, dz + 1, -r)
                        } else {
                            near_from(center, r, dy + 1, -r, -r)
                        },
                    ) == target,
                decreases r + 1 - dx,
            {
                proof {
                    assert(0 <= dx * dx <= r * r && 0 <= dy * dy <= r * r && 0 <= dz * dz <= r * r
                        && r * r <= i32::MAX && dx * dx + dy * dy + dz * dz <= i32::MAX)
                        by (nonlinear_arith)
                        requires
                            -r <= dx <= r,
                            -r <= dy <= r,
                            -r <= dz <= r,
                            3 * r * r <= i32::MAX,
                    ;
                }
                let inside = dx * dx + dy * dy + dz * dz <= radius * radius;
                let ghost here = if inside {
                    seq![offset_of(center, dx as int, dy as int, dz as int)]
                } else {
                    Seq::<ChunkCoord>::empty()
                };
                let ghost rest = if dx < radius {
                    near_from(center, r, dy as int, dz as int, dx + 1)
                } else if dz < radius {
                    near_from(center, r, dy as int, dz + 1, -r)
                } else if dy < radius {
                    near_from(center, r, dy + 1, -r, -r)
                } else {
                    Seq::<ChunkCoord>::empty()
                };
                proof {
                    assert(near_from(center, r, dy as int, dz as int, dx as int) == here + rest);
                    lemma_enqueued_all_append(coords@, here, rest);
                    if dy == radius && dz == radius && dx == radius {
                        assert(near_from(center, r, dy + 1, -r, -r) == Seq::<ChunkCoord>::empty());
                    }
                }
                if inside {
                    let c = center.offset(dx, dy, dz);
                    proof {
                        assert(c == offset_of(center, dx as int, dy as int, dz as int));
                        assert(enqueued_all(coords@, Seq::<ChunkCoord>::empty()) == coords@);
                        assert(seq![c].drop_last() =~= Seq::<ChunkCoord>::empty());
                        assert(enqueued_all(coords@, here) == enqueued(coords@, c));
                    }
                    push_unique_chunk_coord(coords, c);
                } else {
                    proof {
                        assert(enqueued_all(coords@, here) == coords@);
                    }
                }
                dx = dx + 1;
            }
            dz = dz + 1;
        }
        dy = dy + 1;
    }
    proof {
        assert(near_from(center, r, dy as int, -r, -r) == Seq::<ChunkCoord>::empty());
    }
}

/// The first `limit` coordinates of `coords`, with `center` put first when it is not
/// among them.
pub fn limit_preload_coords(coords: Vec<ChunkCoord>, center: ChunkCoord, limit: usize) -> (r: Vec<ChunkCoord>)
    ensures
        ({
            let kept = if coords@.len() > limit {
                coords@.subrange(0, limit as int)
            } else {
                coords@
            };
            r@ == if kept.contains(center) {
                kept
            } else {
                seq![center] + kept
            }
        }),
{
    let ghost given = coords@;
    let mut kept = coords;
    kept.truncate(limit);
    proof {
        if given.len() == limit {
            assert(given.subrange(0, limit as int) =~= given);
        }
    }
    if !contains_coord(&kept, center) {
        let ghost before = kept@;
        kept.insert(0, center);
        assert(kept@ =~= seq![center] + before);
    }
    kept
}

// ---------------------------------------------------------------------------
// Chunks waiting for a new mesh
// ---------------------------------------------------------------------------

/// The loaded chunk at `c` has a dirty subchunk.
pub open spec fn is_dirty_in(m: Map<ChunkCoord, ChunkView>, c: ChunkCoord) -> bool {
    m.contains_key(c) && m[c].subchunk_dirty_mask != 0
}

/// `p` with `c` appended unless it already holds it.
pub open spec fn enqueued(p: Seq<ChunkCoord>, c: ChunkCoord) -> Seq<ChunkCoord> {
    if p.contains(c) {
        p
    } else {
        p.push(c)
    }
}

/// `p` with each of `cs`, in order, appended unless already held.
pub open spec fn enqueued_all(p: Seq<ChunkCoord>, cs: Seq<ChunkCoord>) -> Seq<ChunkCoord>
    decreases cs.len(),
{
    if cs.len() == 0 {
        p
    } else {
        enqueued(enqueued_all(p, cs.drop_last()), cs.last())
    }
}

/// `p` with `c` taken out where it stood and put first.
pub open spec fn moved_to_front(p: Seq<ChunkCoord>, c: ChunkCoord) -> Seq<ChunkCoord> {
    seq![c] + (if p.contains(c) {
        p.remove(p.index_of(c))
    } else {
        p
    })
}

/// `p` with each of `cs`, from the last to the first, moved to the front: the entries
/// of `cs` lead, in their order.
pub open spec fn moved_all_to_front(p: Seq<ChunkCoord>, cs: Seq<ChunkCoord>) -> Seq<ChunkCoord>
    decreases cs.len(),
{
    if cs.len() == 0 {
        p
    } else {
        moved_to_front(moved_all_to_front(p, cs.drop_first()), cs[0])
    }
}

/// The chunks of `m` that have a dirty subchunk, in `y`, `z`, `x` order.
pub open spec fn dirty_coords_ordered(m: Map<ChunkCoord, ChunkView>, r: Seq<ChunkCoord>) -> bool {
    &&& forall|c: ChunkCoord| r.contains(c) <==> is_dirty_in(m, c)
    &&& forall|a: int, b: int|
        0 <= a < b < r.len() ==> priority_lt(yzx_priority(#[trigger] r[a]), yzx_priority(#[trigger] r[b]))
}

/// The loaded chunks that have a dirty subchunk, in `y`, `z`, `x` order.
pub fn dirty_window_chunk_coords<T: TerrainSource>(world: &VoxelWorld<T>) -> (coords: Vec<ChunkCoord>)
    requires
        world.wf(),
    ensures
        dirty_coords_ordered(world@, coords@),
{
    let all = world.loaded_chunk_coords();
    let mut coords: Vec<ChunkCoord> = Vec::new();
    let mut i: usize = 0;
    while i < all.len()
        invariant
            world.wf(),
            0 <= i <= all@.len(),
            forall|c: ChunkCoord| all@.contains(c) <==> world@.contains_key(c),
            forall|a: int, b: int|
                0 <= a < b < all@.len() ==> priority_lt(yzx_priority(#[trigger] all@[a]), yzx_priority(#[trigger] all@[b])),
            forall|c: ChunkCoord|
                coords@.contains(c) <==> (is_dirty_in(world@, c) && exists|a: int| 0 <= a < i && all@[a] == c),
            forall|a: int| 0 <= a < coords@.len() ==> exists|b: int| 0 <= b < i && all@[b] == #[trigger] coords@[a],
            forall|a: int, b: int|
                0 <= a < b < coords@.len() ==> priority_lt(yzx_priority(#[trigger] coords@[a]), yzx_priority(#[trigger] coords@[b])),
            forall|a: int, b: int|
                0 <= a < coords@.len() && i <= b < all@.len() ==> priority_lt(yzx_priority(#[trigger] coords@[a]), yzx_priority(#[trigger] all@[b])),
        decreases all@.len() - i,
    {
        let c = all[i];
        let dirty = match world.get_chunk(c) {
            Some(chunk) => chunk.subchunk_dirty_mask() != 0,
            None => false,
        };
        let ghost before = coords@;
        if dirty {
            coords.push(c);
        }
        proof {
            assert forall|d: ChunkCoord|
                coords@.contains(d) <==> (is_dirty_in(world@, d) && exists|a: int| 0 <= a < i + 1 && all@[a] == d) by {
                if coords@.contains(d) && !before.contains(d) {
                    let k = choose|k: int| 0 <= k < coords@.len() && coords@[k] == d;
                    assert(k == before.len());
                    assert(all@[i as int] == d);
                }
                if before.contains(d) {
                    let k = choose|k: int| 0 <= k < before.len() && before[k] == d;
                    assert(coords@[k] == d);
                }
                if is_dirty_in(world@, d) && (exists|a: int| 0 <= a < i + 1 && all@[a] == d) {
                    let a = choose|a: int| 0 <= a < i + 1 && all@[a] == d;
                    if a == i {
                        assert(coords@[before.len() as int] == d);
                    } else {
                        assert(before.contains(d));
                        let k = choose|k: int| 0 <= k < before.len() && before[k] == d;
                        assert(coords@[k] == d);
                    }
                }
            }
            assert forall|a: int| 0 <= a < coords@.len() implies exists|b: int| 0 <= b < i + 1 && all@[b] == #[trigger] coords@[a] by {
                if a < before.len() {
                    assert(coords@[a] == before[a]);
                    let b = choose|b: int| 0 <= b < i && all@[b] == before[a];
                } else {
                    assert(all@[i as int] == coords@[a]);
                }
            }
            assert forall|a: int, b: int|
                0 <= a < coords@.len() && i + 1 <= b < all@.len() implies priority_lt(yzx_priority(#[trigger] coords@[a]), yzx_priority(#[trigger] all@[b])) by {
                if a < before.len() {
                    assert(coords@[a] == before[a]);
                    assert(priority_lt(yzx_priority(before[a]), yzx_priority(all@[b])));
                } else {
                    assert(coords@[a] == all@[i as int]);
                }
            }
            assert forall|a: int, b: int|
                0 <= a < b < coords@.len() implies priority_lt(yzx_priority(#[trigger] coords@[a]), yzx_priority(#[trigger] coords@[b])) by {
                if b < before.len() {
                    assert(coords@[a] == before[a] && coords@[b] == before[b]);
                } else {
                    assert(coords@[a] == before[a]);
                    assert(coords@[b] == all@[i as int]);
                    assert(priority_lt(yzx_priority(before[a]), yzx_priority(all@[i as int])));
                }
            }
        }
        i = i + 1;
    }
    proof {
        assert forall|c: ChunkCoord| coords@.contains(c) <==> is_dirty_in(world@, c) by {
            if is_dirty_in(world@, c) {
                assert(all@.contains(c));
                let a = choose|a: int| 0 <= a < all@.len() && all@[a] == c;
            }
        }
    }
    coords
}

/// Takes entries from the front of `pending` until one is loaded and dirty, and
/// returns it; `None` once `pending` runs out.
#[verifier::spinoff_prover]
fn pop_first_dirty<T: TerrainSource>(pending: &mut Vec<ChunkCoord>, world: &VoxelWorld<T>) -> (r: Option<ChunkCoord>)
    requires
        world.wf(),
        old(pending)@.no_duplicates(),
    ensures
        final(pending)@.no_duplicates(),
        match r {
            Some(c) => exists|k: int|
                0 <= k < old(pending)@.len() && #[trigger] old(pending)@[k] == c && is_dirty_in(world@, c) && (
                forall|j: int| 0 <= j < k ==> !is_dirty_in(world@, #[trigger] old(pending)@[j]))
                    && final(pending)@ == old(pending)@.subrange(k + 1, old(pending)@.len() as int),
            None => (forall|j: int|
                0 <= j < old(pending)@.len() ==> !is_dirty_in(world@, #[trigger] old(pending)@[j]))
                && final(pending)@.len() == 0,
        },
{
    let ghost p = pending@;
    let ghost mut i: int = 0;
    while pending.len() > 0
        invariant
            world.wf(),
            p == old(pending)@,
            0 <= i <= p.len(),
            p.no_duplicates(),
            pending@ == p.subrange(i, p.len() as int),
            forall|j: int| 0 <= j < i ==> !is_dirty_in(world@, #[trigger] p[j]),
        decreases pending@.len(),
    {
        let c = pending.remove(0);
        proof {
            assert(c == p[i]);
            assert(pending@ =~= p.subrange(i + 1, p.len() as int));
        }
        let dirty = match world.get_chunk(c) {
            Some(chunk) => chunk.subchunk_dirty_mask() != 0,
            None => false,
        };
        if dirty {
            proof {
                assert forall|a: int, b: int| 0 <= a < b < pending@.len() implies pending@[a] != pending@[b] by {
                    assert(pending@[a] == p[i + 1 + a] && pending@[b] == p[i + 1 + b]);
                }
                assert(is_dirty_in(world@, c));
                assert(p[i] == c);
                assert(forall|j: int| 0 <= j < i ==> !is_dirty_in(world@, #[trigger] p[j]));
            }
            return Some(c);
        }
        proof {
            i = i + 1;
        }
    }
    None
}

/// The abstract state of a dirty-mesh queue.
pub struct DirtyMeshQueueView {
    pub pending: Seq<ChunkCoord>,
    pub needs_priority_sort: bool,
}

/// Chunks waiting for a new mesh, each at most once, in the order they will be
/// meshed.
#[derive(Debug)]
pub struct DirtyMeshQueue {
    pending: Vec<ChunkCoord>,
    needs_priority_sort: bool,
}

impl View for DirtyMeshQueue {
    type V = DirtyMeshQueueView;

    closed spec fn view(&self) -> DirtyMeshQueueView {
        DirtyMeshQueueView { pending: self.pending@, needs_priority_sort: self.needs_priority_sort }
    }
}

impl Default for DirtyMeshQueue {
    /// An empty queue.
    fn default() -> (q: Self)
        ensures
            q@.pending.len() == 0,
            !q@.needs_priority_sort,
    {
        DirtyMeshQueue::new()
    }
}

impl DirtyMeshQueue {
    /// No chunk waits twice.
    #[verifier::type_invariant]
    spec fn waits_once(self) -> bool {
        self.pending@.no_duplicates()
    }

    /// An empty queue.
    pub fn new() -> (q: Self)
        ensures
            q@.pending.len() == 0,
            !q@.needs_priority_sort,
    {
        DirtyMeshQueue { pending: Vec::new(), needs_priority_sort: false }
    }

    /// Number of waiting chunks.
    pub fn pending_count(&self) -> (n: usize)
        ensures
            n == self@.pending.len(),
            self@.pending.no_duplicates(),
    {
        proof {
            use_type_invariant(self);
        }
        self.pending.len()
    }

    /// The waiting chunks, in order.
    pub fn pending(&self) -> (p: &[ChunkCoord])
        ensures
            p@ == self@.pending,
    {
        self.pending.as_slice()
    }

    /// Whether the order must be recomputed before the next meshing.
    pub fn needs_priority_sort(&self) -> (b: bool)
        ensures
            b == self@.needs_priority_sort,
    {
        self.needs_priority_sort
    }

    /// Asks for the order to be recomputed.
    pub fn request_prioritize(&mut self)
        ensures
            final(self)@.pending == old(self)@.pending,
            final(self)@.needs_priority_sort,
    {
        proof {
            use_type_invariant(&*self);
        }
        self.needs_priority_sort = true;
    }

    /// Adds `coord` at the back unless it already waits.
    pub fn enqueue(&mut self, coord: ChunkCoord)
        ensures
            final(self)@.pending == enqueued(old(self)@.pending, coord),
            final(self)@.needs_priority_sort == (old(self)@.needs_priority_sort || !old(
                self,
            )@.pending.contains(coord)),
            final(self)@.pending.no_duplicates(),
    {
        proof {
            use_type_invariant(&*self);
        }
        if !contains_coord(&self.pending, coord) {
            let mut p = Vec::new();
            std::mem::swap(&mut p, &mut self.pending);
            p.push(coord);
            self.pending = p;
            self.needs_priority_sort = true;
        }
    }

    /// Puts `coord` first, taking it out of where it waited.
    pub fn enqueue_front(&mut self, coord: ChunkCoord)
        ensures
            final(self)@.pending == moved_to_front(old(self)@.pending, coord),
            final(self)@.needs_priority_sort,
            final(self)@.pending.no_duplicates(),
    {
        proof {
            use_type_invariant(&*self);
        }
        let ghost p = self.pending@;
        let mut k: usize = 0;
        while k < self.pending.len()
            invariant
                self.pending@ == p,
                0 <= k <= p.len(),
                forall|j: int| 0 <= j < k ==> p[j] != coord,
            ensures
                0 <= k <= p.len(),
                forall|j: int| 0 <= j < k ==> p[j] != coord,
                k < p.len() ==> p[k as int] == coord,
            decreases p.len() - k,
        {
            if self.pending[k] == coord {
                break;
            }
            k = k + 1;
        }
        let mut rest = Vec::new();
        std::mem::swap(&mut rest, &mut self.pending);
        if k < rest.len() {
            proof {
                assert(p.contains(coord));
                let j = p.index_of(coord);
                assert(p[j] == coord);
                assert(j == k as int) by {
                    if j != k as int {
                        assert(p.no_duplicates());
                    }
                }
            }
            rest.remove(k);
        }
        proof {
            assert(k == p.len() ==> !p.contains(coord));
        }
        rest.insert(0, coord);
        proof {
            assert(rest@ =~= moved_to_front(p, coord));
            assert forall|a: int, b: int| 0 <= a < b < rest@.len() implies rest@[a] != rest@[b] by {
                if a == 0 {
                    if p.contains(coord) {
                        let j = p.index_of(coord);
                        let q = p.remove(j);
                        assert(rest@[b] == q[b - 1]);
                        if b - 1 < j {
                            assert(q[b - 1] == p[b - 1]);
                        } else {
                            assert(q[b - 1] == p[b]);
                        }
                    } else {
                        assert(rest@[b] == p[b - 1]);
                    }
                } else if p.contains(coord) {
                    let j = p.index_of(coord);
                    let q = p.remove(j);
                    assert(rest@[a] == q[a - 1] && rest@[b] == q[b - 1]);
                } else {
                    assert(rest@[a] == p[a - 1] && rest@[b] == p[b - 1]);
                }
            }
        }
        self.pending = rest;
        self.needs_priority_sort = true;
    }

    /// Puts `coords` first, in their order, taking them out of where they waited.
    pub fn enqueue_priority(&mut self, coords: &[ChunkCoord])
        ensures
            final(self)@.pending == moved_all_to_front(old(self)@.pending, coords@),
            final(self)@.needs_priority_sort == (old(self)@.needs_priority_sort || coords@.len() > 0),
            final(self)@.pending.no_duplicates(),
    {
        proof {
            use_type_invariant(&*self);
        }
        let ghost p = self.pending@;
        let mut i: usize = coords.len();
        proof {
            assert(coords@.subrange(i as int, coords@.len() as int) =~= Seq::<ChunkCoord>::empty());
        }
        while i > 0
            invariant
                0 <= i <= coords@.len(),
                self.pending@ == moved_all_to_front(p, coords@.subrange(i as int, coords@.len() as int)),
                self.needs_priority_sort == (old(self)@.needs_priority_sort || i < coords@.len()),
                self.pending@.no_duplicates(),
            decreases i,
        {
            i = i - 1;
            proof {
                let s = coords@.subrange(i as int, coords@.len() as int);
                assert(s.drop_first() =~= coords@.subrange(i + 1, coords@.len() as int));
                assert(s[0] == coords@[i as int]);
            }
            self.enqueue_front(coords[i]);
        }
        proof {
            assert(coords@.subrange(0, coords@.len() as int) =~= coords@);
        }
    }

    /// Takes waiting chunks from the front until one is loaded and dirty, and returns
    /// it; `None` once the queue runs out.
    pub fn pop_dirty<T: TerrainSource>(&mut self, world: &VoxelWorld<T>) -> (r: Option<ChunkCoord>)
        requires
            world.wf(),
        ensures
            final(self)@.needs_priority_sort == old(self)@.needs_priority_sort,
            final(self)@.pending.no_duplicates(),
            match r {
                Some(c) => exists|k: int|
                    0 <= k < old(self)@.pending.len() && #[trigger] old(self)@.pending[k] == c && is_dirty_in(
                        world@,
                        c,
                    ) && (forall|j: int| 0 <= j < k ==> !is_dirty_in(world@, #[trigger] old(self)@.pending[j]))
                        && final(self)@.pending == old(self)@.pending.subrange(
                        k + 1,
                        old(self)@.pending.len() as int,
                    ),
                None => (forall|j: int|
                    0 <= j < old(self)@.pending.len() ==> !is_dirty_in(world@, #[trigger] old(self)@.pending[j]))
                    && final(self)@.pending.len() == 0,
            },
    {
        proof {
            use_type_invariant(&*self);
        }
        let ghost p0 = self.pending@;
        let mut rest = Vec::new();
        std::mem::swap(&mut rest, &mut self.pending);
        assert(rest@ == p0);
        let r = pop_first_dirty(&mut rest, world);
        self.pending = rest;
        proof {
            if r is Some {
                let c = r->0;
                let k = choose|k: int|
                    0 <= k < p0.len() && #[trigger] p0[k] == c && is_dirty_in(world@, c) && (forall|j: int|
                        0 <= j < k ==> !is_dirty_in(world@, #[trigger] p0[j])) && rest@ == p0.subrange(
                        k + 1,
                        p0.len() as int,
                    );
                assert(self@.pending == p0.subrange(k + 1, p0.len() as int));
                assert(p0 == old(self)@.pending);
                assert(old(self)@.pending[k] == c);
            }
        }
        r
    }

    /// Queues every loaded dirty chunk of the world, in `y`, `z`, `x` order, that does
    /// not wait already.
    pub fn enqueue_dirty<T: TerrainSource>(&mut self, world: &VoxelWorld<T>)
        requires
            world.wf(),
        ensures
            exists|coords: Seq<ChunkCoord>|
                dirty_coords_ordered(world@, coords) && final(self)@.pending == #[trigger] enqueued_all(
                    old(self)@.pending,
                    coords,
                ),
            final(self)@.pending.no_duplicates(),
    {
        let coords = dirty_window_chunk_coords(world);
        let ghost p = self.pending@;
        let mut i: usize = 0;
        while i < coords.len()
            invariant
                0 <= i <= coords@.len(),
                self.pending@ == enqueued_all(p, coords@.subrange(0, i as int)),
            decreases coords@.len() - i,
        {
            proof {
                assert(coords@.subrange(0, i + 1).drop_last() =~= coords@.subrange(0, i as int));
            }
            self.enqueue(coords[i]);
            i = i + 1;
        }
        proof {
            assert(coords@.subrange(0, coords@.len() as int) =~= coords@);
            use_type_invariant(&*self);
            assert(dirty_coords_ordered(world@, coords@));
            assert(p == old(self)@.pending);
            assert(self@.pending == enqueued_all(old(self)@.pending, coords@));
        }
    }

    /// Reorders the waiting chunks by `keys` (one per waiting chunk, in queue order),
    /// keeping the order of equal keys, when a reorder was asked for and at least two
    /// chunks wait.
    pub fn prioritize(&mut self, keys: &[ChunkPriority])
        requires
            keys@.len() == old(self)@.pending.len(),
        ensures
            !final(self)@.needs_priority_sort,
            final(self)@.pending.no_duplicates(),
            !(old(self)@.needs_priority_sort && old(self)@.pending.len() >= 2) ==> final(self)@.pending
                == old(self)@.pending,
            old(self)@.needs_priority_sort && old(self)@.pending.len() >= 2 ==> exists|order: Seq<int>|
                #[trigger] is_sorting_order(keys@, order) && final(self)@.pending == order.map_values(
                    |j: int| old(self)@.pending[j],
                ),
    {
        proof {
            use_type_invariant(&*self);
        }
        if !self.needs_priority_sort || self.pending.len() < 2 {
            self.needs_priority_sort = false;
            return;
        }
        let ghost p = self.pending@;
        let order = sorted_order(keys);
        let ghost o = order@.map_values(|x: usize| x as int);
        proof {
            assert forall|a: int| 0 <= a < order@.len() implies #[trigger] order@[a] < p.len() by {
                assert(o[a] == order@[a] as int);
            }
        }
        let sorted = apply_order(self.pending.as_slice(), order.as_slice());
        proof {
            assert(sorted@ =~= o.map_values(|j: int| p[j]));
            assert forall|a: int, b: int| 0 <= a < b < sorted@.len() implies sorted@[a] != sorted@[b] by {
                assert(entry_before(keys@, o[a], o[b]));
                assert(o[a] != o[b]);
                assert(sorted@[a] == p[o[a]] && sorted@[b] == p[o[b]]);
            }
        }
        self.pending = sorted;
        self.needs_priority_sort = false;
    }
}

// ---------------------------------------------------------------------------
// Chunks waiting to be loaded
// ---------------------------------------------------------------------------

/// What the list of chunks to load was computed for: the center chunk, the radius and
/// the camera's heading in coarse steps.
#[derive(Debug, Clone, Copy, PartialEq, Eq, Structural)]
pub struct StreamingViewKey {
    pub center: ChunkCoord,
    pub radius: i32,
    pub yaw_bucket: i32,
    pub pitch_bucket: i32,
}

/// The abstract state of the chunk loader.
pub struct ChunkStreamingStateView {
    pub settings: WorldStreamingSettings,
    pub view_key: Option<StreamingViewKey>,
    pub pending_loads: Seq<ChunkCoord>,
}

/// The chunks to load for the current view, nearest and most visible first.
pub struct ChunkStreamingState {
    settings: WorldStreamingSettings,
    view_key: Option<StreamingViewKey>,
    pending_loads: Vec<ChunkCoord>,
}

impl View for ChunkStreamingState {
    type V = ChunkStreamingStateView;

    closed spec fn view(&self) -> ChunkStreamingStateView {
        ChunkStreamingStateView {
            settings: self.settings,
            view_key: self.view_key,
            pending_loads: self.pending_loads@,
        }
    }
}

impl Default for ChunkStreamingState {
    /// The loader for the default chunk view distance.
    fn default() -> (s: Self)
        ensures
            s@.settings == streaming_settings_spec(DEFAULT_RENDER_CHUNK_DISTANCE as int),
            s@.view_key is None,
            s@.pending_loads.len() == 0,
    {
        ChunkStreamingState::new(streaming_settings_for_view_distance(DEFAULT_RENDER_CHUNK_DISTANCE))
    }
}

/// The streaming radii for a chunk view distance.
pub open spec fn streaming_settings_spec(d: int) -> WorldStreamingSettings {
    let r = clamp_int(d, MIN_RENDER_CHUNK_DISTANCE as int, MAX_RENDER_CHUNK_DISTANCE as int) as i32;
    WorldStreamingSettings {
        horizontal_load_radius: r,
        vertical_load_radius: r,
        render_radius: r,
        simulation_radius: r,
        mob_ai_radius: r,
        save_unload_radius: (r + 1) as i32,
    }
}

impl ChunkStreamingState {
    /// A loader with no view yet.
    pub fn new(settings: WorldStreamingSettings) -> (s: Self)
        ensures
            s@.settings == settings,
            s@.view_key is None,
            s@.pending_loads.len() == 0,
    {
        ChunkStreamingState { settings, view_key: None, pending_loads: Vec::new() }
    }

    /// The radii in use.
    pub fn settings(&self) -> (s: WorldStreamingSettings)
        ensures
            s == self@.settings,
    {
        self.settings
    }

    /// The view the pending list was computed for.
    pub fn view_key(&self) -> (k: Option<StreamingViewKey>)
        ensures
            k == self@.view_key,
    {
        self.view_key
    }

    /// Changes the radii; different radii drop the view and the pending list.
    pub fn set_settings(&mut self, settings: WorldStreamingSettings)
        ensures
            settings == old(self)@.settings ==> final(self)@ == old(self)@,
            settings != old(self)@.settings ==> final(self)@.settings == settings
                && final(self)@.view_key is None && final(self)@.pending_loads.len() == 0,
    {
        if self.settings == settings {
            return;
        }
        self.settings = settings;
        self.view_key = None;
        self.pending_loads.clear();
    }

    /// Whether `key` differs from the view the pending list was computed for.
    pub fn view_changed(&self, key: StreamingViewKey) -> (b: bool)
        ensures
            b == (self@.view_key != Some(key)),
    {
        match self.view_key {
            Some(k) => k != key,
            None => true,
        }
    }

    /// Adopts the list `coords` computed for the view `key`, unless the pending list
    /// was computed for that view already. Returns whether it adopted it.
    pub fn update_view(&mut self, key: StreamingViewKey, coords: Vec<ChunkCoord>) -> (changed: bool)
        ensures
            changed == (old(self)@.view_key != Some(key)),
            !changed ==> final(self)@ == old(self)@,
            changed ==> final(self)@.settings == old(self)@.settings && final(self)@.view_key == Some(
                key,
            ) && final(self)@.pending_loads == coords@,
    {
        if !self.view_changed(key) {
            return false;
        }
        self.view_key = Some(key);
        self.pending_loads = coords;
        true
    }

    /// Takes pending chunks from the front until one is not loaded, and returns it;
    /// `None` once the list runs out.
    pub fn pop_missing<T: TerrainSource>(&mut self, world: &VoxelWorld<T>) -> (r: Option<ChunkCoord>)
        requires
            world.wf(),
        ensures
            final(self)@.settings == old(self)@.settings,
            final(self)@.view_key == old(self)@.view_key,
            match r {
                Some(c) => exists|k: int|
                    0 <= k < old(self)@.pending_loads.len() && #[trigger] old(self)@.pending_loads[k] == c
                        && !world@.contains_key(c) && (forall|j: int|
                        0 <= j < k ==> world@.contains_key(#[trigger] old(self)@.pending_loads[j]))
                        && final(self)@.pending_loads == old(self)@.pending_loads.subrange(
                        k + 1,
                        old(self)@.pending_loads.len() as int,
                    ),
                None => (forall|j: int|
                    0 <= j < old(self)@.pending_loads.len() ==> world@.contains_key(
                        #[trigger] old(self)@.pending_loads[j],
                    )) && final(self)@.pending_loads.len() == 0,
            },
    {
        let ghost p = self.pending_loads@;
        let ghost mut i: int = 0;
        while self.pending_loads.len() > 0
            invariant
                world.wf(),
                p == old(self)@.pending_loads,
                self.settings == old(self)@.settings,
                self.view_key == old(self)@.view_key,
                0 <= i <= p.len(),
                self.pending_loads@ == p.subrange(i, p.len() as int),
                forall|j: int| 0 <= j < i ==> world@.contains_key(#[trigger] p[j]),
            decreases self.pending_loads@.len(),
        {
            let c = self.pending_loads.remove(0);
            proof {
                assert(c == p[i]);
                assert(self.pending_loads@ =~= p.subrange(i + 1, p.len() as int));
            }
            if !world.contains_chunk(c) {
                return Some(c);
            }
            proof {
                i = i + 1;
            }
        }
        None
    }

    /// Number of chunks still waiting.
    pub fn pending_count(&self) -> (n: usize)
        ensures
            n == self@.pending_loads.len(),
    {
        self.pending_loads.len()
    }
}

// ---------------------------------------------------------------------------
// Interface text and frame reports
// ---------------------------------------------------------------------------

/// The label the interface shows for a block.
pub fn block_ui_label(block: BlockId) -> (label: &'static str)
    ensures
        label@ == block_label_spec(block),
{
    block_label(block)
}

/// What became of a frame.
#[derive(Debug, Clone, Copy, PartialEq, Eq, Structural)]
pub enum RenderFrameStatus {
    Rendered,
    Skipped,
    Reconfigured,
}

/// Counters of the last frame drawn.
#[derive(Debug, Clone, Copy, PartialEq, Eq, Structural)]
pub struct RenderFrameStats {
    pub uploaded_chunk_meshes: usize,
    pub drawn_chunk_meshes: usize,
    pub culled_chunk_meshes: usize,
    pub drawn_indices: u32,
    pub terrain_draw_calls: u32,
}

impl Default for RenderFrameStats {
    /// All counters zero.
    fn default() -> (s: Self)
        ensures
            s.uploaded_chunk_meshes == 0,
            s.drawn_chunk_meshes == 0,
            s.culled_chunk_meshes == 0,
            s.drawn_indices == 0,
            s.terrain_draw_calls == 0,
    {
        RenderFrameStats {
            uploaded_chunk_meshes: 0,
            drawn_chunk_meshes: 0,
            culled_chunk_meshes: 0,
            drawn_indices: 0,
            terrain_draw_calls: 0,
        }
    }
}

} // verus!
