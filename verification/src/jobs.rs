//! Chunk generation and meshing jobs handed to the worker threads: which are pending,
//! which chunk to send next, and what a finished job does to the world.
//!
//! The channels and threads themselves belong to the window loop; it reserves a job
//! here before sending it, releases the reservation when the send fails or the result
//! comes back, and hands each result to the functions below.

use vstd::prelude::*;

use crate::chunk_budget::{sight_in_range, SightedChunk};
use crate::client::{
    all_marked, changed_block_count, chunk_is_render_candidate, enqueued, enqueued_all,
    interaction_in_range, interaction_modified_chunks, interaction_priority_chunks,
    dedup_coords, interaction_priority_spec, is_dirty_in, lemma_dedup_coords, loaded_coords, mark_streamed_chunk_dirty,
    moved_all_to_front, neighbor_seq, push_unique_chunk_coord, render_candidate, DirtyMeshQueue,
};
use crate::gameplay::BlockInteraction;
use crate::world::chunk_of;
use crate::coords::ChunkCoord;
use crate::meshing::{captured_borders, has_neighbor_coords, ChunkMeshInput};
use crate::terrain::{chunk_in_world_range, TerrainSource};
use crate::voxels::{Chunk, ChunkView};
use crate::world::{VoxelWorld, WorldStreamingSettings};

verus! {

/// Largest number of normal-priority mesh jobs pending before no more are sent.
pub const MAX_PENDING_NORMAL_MESH_JOBS: usize = 8;

/// Largest number of generation jobs pending before no more are sent.
pub const MAX_PENDING_GENERATION_JOBS: usize = 8;

/// Which worker a mesh job goes to.
#[derive(Debug, Clone, Copy, PartialEq, Eq, Structural)]
pub enum MeshJobPriority {
    Normal,
    Priority,
}

/// The chunks with a job pending, by kind of job.
pub struct ChunkJobTrackerView {
    pub generation: Set<ChunkCoord>,
    pub meshes: Set<ChunkCoord>,
    pub priority_meshes: Set<ChunkCoord>,
}

impl ChunkJobTrackerView {
    /// The pending mesh jobs of `priority`.
    pub open spec fn meshes_of(self, priority: MeshJobPriority) -> Set<ChunkCoord> {
        match priority {
            MeshJobPriority::Normal => self.meshes,
            MeshJobPriority::Priority => self.priority_meshes,
        }
    }

    /// The same with the pending mesh jobs of `priority` replaced by `s`.
    pub open spec fn with_meshes(self, priority: MeshJobPriority, s: Set<ChunkCoord>) -> Self {
        match priority {
            MeshJobPriority::Normal => ChunkJobTrackerView { meshes: s, ..self },
            MeshJobPriority::Priority => ChunkJobTrackerView { priority_meshes: s, ..self },
        }
    }
}

/// The chunks with a generation job or a mesh job (of either priority) pending; a
/// chunk has at most one pending job of each kind.
#[derive(Debug)]
pub struct ChunkJobTracker {
    pending_generation: Vec<ChunkCoord>,
    pending_meshes: Vec<ChunkCoord>,
    pending_priority_meshes: Vec<ChunkCoord>,
}

impl View for ChunkJobTracker {
    type V = ChunkJobTrackerView;

    closed spec fn view(&self) -> ChunkJobTrackerView {
        ChunkJobTrackerView {
            generation: self.pending_generation@.to_set(),
            meshes: self.pending_meshes@.to_set(),
            priority_meshes: self.pending_priority_meshes@.to_set(),
        }
    }
}

/// Where `coord` stands in `v`, if it does.
fn position_of(v: &Vec<ChunkCoord>, coord: ChunkCoord) -> (r: Option<usize>)
    ensures
        r is None <==> !v@.contains(coord),
        r matches Some(i) ==> i < v@.len() && v@[i as int] == coord,
{
    let mut i: usize = 0;
    while i < v.len()
        invariant
            0 <= i <= v@.len(),
            forall|j: int| 0 <= j < i ==> v@[j] != coord,
        decreases v@.len() - i,
    {
        if v[i] == coord {
            return Some(i);
        }
        i = i + 1;
    }
    None
}

/// Adds `coord` to a list without duplicates unless it is there; returns whether it was
/// added.
fn add_once(v: &mut Vec<ChunkCoord>, coord: ChunkCoord) -> (added: bool)
    requires
        old(v)@.no_duplicates(),
    ensures
        final(v)@.no_duplicates(),
        final(v)@.to_set() == old(v)@.to_set().insert(coord),
        added == !old(v)@.contains(coord),
{
    match position_of(v, coord) {
        Some(_) => {
            proof {
                assert(v@.to_set().insert(coord) =~= v@.to_set());
            }
            false
        },
        None => {
            let ghost before = v@;
            v.push(coord);
            proof {
                assert(v@.to_set() =~= before.to_set().insert(coord)) by {
                    assert forall|x: ChunkCoord| v@.contains(x) <==> before.contains(x) || x == coord by {
                        if v@.contains(x) {
                            let a = choose|a: int| 0 <= a < v@.len() && v@[a] == x;
                            if a < before.len() {
                                assert(before[a] == x);
                            }
                        }
                        if before.contains(x) {
                            let a = choose|a: int| 0 <= a < before.len() && before[a] == x;
                            assert(v@[a] == x);
                        }
                        if x == coord {
                            assert(v@[before.len() as int] == coord);
                        }
                    }
                }
            }
            true
        },
    }
}

/// Takes `coord` out of a list without duplicates.
fn take_out(v: &mut Vec<ChunkCoord>, coord: ChunkCoord)
    requires
        old(v)@.no_duplicates(),
    ensures
        final(v)@.no_duplicates(),
        final(v)@.to_set() == old(v)@.to_set().remove(coord),
{
    match position_of(v, coord) {
        None => {
            proof {
                assert(v@.to_set().remove(coord) =~= v@.to_set());
            }
        },
        Some(i) => {
            let ghost before = v@;
            v.remove(i);
            proof {
                assert(v@ =~= before.subrange(0, i as int) + before.subrange(i + 1, before.len() as int));
                assert forall|a: int, b: int| 0 <= a < b < v@.len() implies v@[a] != v@[b] by {
                    let x = if a < i { a } else { a + 1 };
                    let y = if b < i { b } else { b + 1 };
                    assert(v@[a] == before[x] && v@[b] == before[y]);
                }
                assert(v@.to_set() =~= before.to_set().remove(coord)) by {
                    assert forall|x: ChunkCoord| v@.contains(x) <==> before.contains(x) && x != coord by {
                        if v@.contains(x) {
                            let a = choose|a: int| 0 <= a < v@.len() && v@[a] == x;
                            let p = if a < i { a } else { a + 1 };
                            assert(before[p] == x);
                            assert(p != i);
                        }
                        if before.contains(x) && x != coord {
                            let p = choose|p: int| 0 <= p < before.len() && before[p] == x;
                            assert(p != i);
                            if p < i {
                                assert(v@[p] == x);
                            } else {
                                assert(v@[p - 1] == x);
                            }
                        }
                    }
                }
            }
        },
    }
}

impl ChunkJobTracker {
    /// Each chunk appears once in each list.
    #[verifier::type_invariant]
    spec fn once_each(self) -> bool {
        &&& self.pending_generation@.no_duplicates()
        &&& self.pending_meshes@.no_duplicates()
        &&& self.pending_priority_meshes@.no_duplicates()
    }

    /// No job pending.
    pub fn new() -> (t: Self)
        ensures
            t@.generation.is_empty(),
            t@.meshes.is_empty(),
            t@.priority_meshes.is_empty(),
    {
        let t = ChunkJobTracker {
            pending_generation: Vec::new(),
            pending_meshes: Vec::new(),
            pending_priority_meshes: Vec::new(),
        };
        proof {
            assert(t@.generation =~= Set::<ChunkCoord>::empty());
            assert(t@.meshes =~= Set::<ChunkCoord>::empty());
            assert(t@.priority_meshes =~= Set::<ChunkCoord>::empty());
        }
        t
    }

    /// Marks a generation job for `coord` pending; returns false, changing nothing, when
    /// one already is.
    pub fn reserve_generation(&mut self, coord: ChunkCoord) -> (reserved: bool)
        ensures
            reserved == !old(self)@.generation.contains(coord),
            final(self)@ == (ChunkJobTrackerView {
                generation: old(self)@.generation.insert(coord),
                ..old(self)@
            }),
    {
        proof {
            use_type_invariant(&*self);
        }
        let mut v = Vec::new();
        std::mem::swap(&mut v, &mut self.pending_generation);
        let reserved = add_once(&mut v, coord);
        self.pending_generation = v;
        reserved
    }

    /// The generation job for `coord` is over (done, or never sent).
    pub fn release_generation(&mut self, coord: ChunkCoord)
        ensures
            final(self)@ == (ChunkJobTrackerView {
                generation: old(self)@.generation.remove(coord),
                ..old(self)@
            }),
    {
        proof {
            use_type_invariant(&*self);
        }
        let mut v = Vec::new();
        std::mem::swap(&mut v, &mut self.pending_generation);
        take_out(&mut v, coord);
        self.pending_generation = v;
    }

    /// Marks a mesh job of `priority` for `coord` pending; returns false, changing
    /// nothing, when one of that priority already is.
    pub fn reserve_mesh(&mut self, coord: ChunkCoord, priority: MeshJobPriority) -> (reserved: bool)
        ensures
            reserved == !old(self)@.meshes_of(priority).contains(coord),
            final(self)@ == old(self)@.with_meshes(
                priority,
                old(self)@.meshes_of(priority).insert(coord),
            ),
    {
        proof {
            use_type_invariant(&*self);
        }
        let mut v = Vec::new();
        match priority {
            MeshJobPriority::Normal => {
                std::mem::swap(&mut v, &mut self.pending_meshes);
                let reserved = add_once(&mut v, coord);
                self.pending_meshes = v;
                reserved
            },
            MeshJobPriority::Priority => {
                std::mem::swap(&mut v, &mut self.pending_priority_meshes);
                let reserved = add_once(&mut v, coord);
                self.pending_priority_meshes = v;
                reserved
            },
        }
    }

    /// The mesh job of `priority` for `coord` is over (done, or never sent).
    pub fn release_mesh(&mut self, coord: ChunkCoord, priority: MeshJobPriority)
        ensures
            final(self)@ == old(self)@.with_meshes(
                priority,
                old(self)@.meshes_of(priority).remove(coord),
            ),
    {
        proof {
            use_type_invariant(&*self);
        }
        let mut v = Vec::new();
        match priority {
            MeshJobPriority::Normal => {
                std::mem::swap(&mut v, &mut self.pending_meshes);
                take_out(&mut v, coord);
                self.pending_meshes = v;
            },
            MeshJobPriority::Priority => {
                std::mem::swap(&mut v, &mut self.pending_priority_meshes);
                take_out(&mut v, coord);
                self.pending_priority_meshes = v;
            },
        }
    }

    /// Whether a generation job for `coord` is pending.
    pub fn is_generation_pending(&self, coord: ChunkCoord) -> (b: bool)
        ensures
            b == self@.generation.contains(coord),
    {
        position_of(&self.pending_generation, coord).is_some()
    }

    /// Whether a mesh job of either priority for `coord` is pending.
    pub fn is_mesh_pending(&self, coord: ChunkCoord) -> (b: bool)
        ensures
            b == (self@.meshes.contains(coord) || self@.priority_meshes.contains(coord)),
    {
        position_of(&self.pending_meshes, coord).is_some() || position_of(
            &self.pending_priority_meshes,
            coord,
        ).is_some()
    }

    /// Number of pending normal-priority mesh jobs.
    pub fn normal_mesh_pending_count(&self) -> (n: usize)
        ensures
            n == self@.meshes.len(),
    {
        proof {
            use_type_invariant(self);
            self.pending_meshes@.unique_seq_to_set();
        }
        self.pending_meshes.len()
    }

    /// Number of pending mesh jobs of both priorities (`usize::MAX` should the sum not
    /// fit).
    pub fn mesh_pending_count(&self) -> (n: usize)
        ensures
            n == if self@.meshes.len() + self@.priority_meshes.len() > usize::MAX {
                usize::MAX as int
            } else {
                (self@.meshes.len() + self@.priority_meshes.len()) as int
            },
    {
        proof {
            use_type_invariant(self);
            self.pending_meshes@.unique_seq_to_set();
            self.pending_priority_meshes@.unique_seq_to_set();
        }
        self.pending_meshes.len().saturating_add(self.pending_priority_meshes.len())
    }

    /// Number of pending generation jobs.
    pub fn generation_pending_count(&self) -> (n: usize)
        ensures
            n == self@.generation.len(),
    {
        proof {
            use_type_invariant(self);
            self.pending_generation@.unique_seq_to_set();
        }
        self.pending_generation.len()
    }
}


/// Releasing a job that was just reserved leaves the pending jobs as they were.
pub proof fn lemma_release_undoes_reserve(
    v: ChunkJobTrackerView,
    coord: ChunkCoord,
    priority: MeshJobPriority,
)
    ensures
        !v.generation.contains(coord) ==> v.generation.insert(coord).remove(coord) == v.generation,
        !v.meshes_of(priority).contains(coord) ==> ({
            let reserved = v.with_meshes(priority, v.meshes_of(priority).insert(coord));
            reserved.with_meshes(priority, reserved.meshes_of(priority).remove(coord)) == v
        }),
{
    assert(!v.generation.contains(coord) ==> v.generation.insert(coord).remove(coord)
        =~= v.generation);
    if !v.meshes_of(priority).contains(coord) {
        assert(v.meshes_of(priority).insert(coord).remove(coord) =~= v.meshes_of(priority));
    }
}

// ---------------------------------------------------------------------------
// Finished jobs
// ---------------------------------------------------------------------------

/// What to do with a finished mesh.
#[derive(Debug, Clone, Copy, PartialEq, Eq, Structural)]
pub enum MeshResultAction {
    /// The chunk is gone: stop drawing its mesh.
    RemoveMesh,
    /// The chunk changed since the job copied it: it waits for a new mesh instead.
    Requeued,
    /// The mesh is current: draw it.
    Upload,
}

/// Takes in a finished mesh of the chunk at `coord`, made from its copy at `revision`,
/// whose visible subchunks are `visible_mask`. A chunk no longer loaded loses its mesh;
/// a chunk changed since the copy waits again in `queue`; otherwise the chunk records
/// the visible subchunks and is no longer dirty, and the mesh is drawn.
pub fn apply_mesh_job_result<T: TerrainSource>(
    world: &mut VoxelWorld<T>,
    queue: &mut DirtyMeshQueue,
    coord: ChunkCoord,
    revision: u32,
    visible_mask: u8,
) -> (a: MeshResultAction)
    requires
        old(world).wf(),
    ensures
        final(world).wf(),
        final(world).seed_spec() == old(world).seed_spec(),
        !old(world)@.contains_key(coord) ==> {
            &&& a == MeshResultAction::RemoveMesh
            &&& final(world)@ == old(world)@
            &&& final(queue)@ == old(queue)@
        },
        old(world)@.contains_key(coord) && old(world)@[coord].revision != revision ==> {
            &&& a == MeshResultAction::Requeued
            &&& final(world)@ == old(world)@
            &&& final(queue)@.pending == enqueued(old(queue)@.pending, coord)
            &&& final(queue)@.needs_priority_sort == (old(queue)@.needs_priority_sort || !old(
                queue,
            )@.pending.contains(coord))
        },
        old(world)@.contains_key(coord) && old(world)@[coord].revision == revision ==> {
            &&& a == MeshResultAction::Upload
            &&& final(world)@ == old(world)@.insert(
                coord,
                ChunkView {
                    subchunk_visible_mask: visible_mask,
                    subchunk_dirty_mask: 0,
                    ..old(world)@[coord]
                },
            )
            &&& final(queue)@ == old(queue)@
        },
{
    let current = match world.get_chunk(coord) {
        Some(chunk) => chunk.revision(),
        None => return MeshResultAction::RemoveMesh,
    };
    if current != revision {
        queue.enqueue(coord);
        return MeshResultAction::Requeued;
    }
    world.set_chunk_visible_mask(coord, visible_mask);
    world.clear_chunk_dirty(coord);
    MeshResultAction::Upload
}

/// Takes in a finished mesh during play: one of a chunk that is no longer a render
/// candidate is dropped (`None`, nothing changes); others go to
/// `apply_mesh_job_result`.
pub fn accept_mesh_result<T: TerrainSource>(
    world: &mut VoxelWorld<T>,
    queue: &mut DirtyMeshQueue,
    center: ChunkCoord,
    settings: WorldStreamingSettings,
    coord: ChunkCoord,
    revision: u32,
    visible_mask: u8,
) -> (a: Option<MeshResultAction>)
    requires
        old(world).wf(),
        sight_in_range(center, SightedChunk { coord, visible: true, depth_key: 0 }),
        settings.render_radius * settings.render_radius <= i32::MAX,
    ensures
        final(world).wf(),
        !render_candidate(old(world)@, center, coord, settings) ==> {
            &&& a is None
            &&& final(world)@ == old(world)@
            &&& final(queue)@ == old(queue)@
        },
        render_candidate(old(world)@, center, coord, settings) ==> {
            &&& a is Some
            &&& old(world)@[coord].revision != revision ==> {
                &&& a == Some(MeshResultAction::Requeued)
                &&& final(world)@ == old(world)@
                &&& final(queue)@.pending == enqueued(old(queue)@.pending, coord)
                &&& final(queue)@.needs_priority_sort == (old(queue)@.needs_priority_sort || !old(
                    queue,
                )@.pending.contains(coord))
            }
            &&& old(world)@[coord].revision == revision ==> {
                &&& a == Some(MeshResultAction::Upload)
                &&& final(world)@ == old(world)@.insert(
                    coord,
                    ChunkView {
                        subchunk_visible_mask: visible_mask,
                        subchunk_dirty_mask: 0,
                        ..old(world)@[coord]
                    },
                )
                &&& final(queue)@ == old(queue)@
            }
        },
{
    if !chunk_is_render_candidate(world, center, coord, settings) {
        return None;
    }
    Some(apply_mesh_job_result(world, queue, coord, revision, visible_mask))
}

/// Takes in a generated chunk: when no chunk is loaded at its coordinate it is added,
/// and it and its loaded neighbors are marked wholly dirty and wait for new meshes.
/// Returns whether the chunk was added.
pub fn accept_generated_chunk<T: TerrainSource>(
    world: &mut VoxelWorld<T>,
    queue: &mut DirtyMeshQueue,
    chunk: Chunk,
) -> (added: bool)
    requires
        old(world).wf(),
        chunk.wf(),
        has_neighbor_coords(chunk@.coord),
    ensures
        final(world).wf(),
        added == !old(world)@.contains_key(chunk@.coord),
        !added ==> final(world)@ == old(world)@ && final(queue)@ == old(queue)@,
        added ==> ({
            let grown = old(world)@.insert(chunk@.coord, chunk@);
            let targets = seq![chunk@.coord] + neighbor_seq(chunk@.coord);
            &&& final(world)@ == all_marked(grown, targets)
            &&& final(queue)@.pending == enqueued_all(
                old(queue)@.pending,
                loaded_coords(grown, targets),
            )
        }),
{
    let coord = chunk.coord();
    if !world.insert_chunk(chunk) {
        return false;
    }
    let dirty = mark_streamed_chunk_dirty(world, coord);
    let ghost start = queue@.pending;
    let mut i: usize = 0;
    proof {
        assert(dirty@.take(0) =~= Seq::<ChunkCoord>::empty());
    }
    while i < dirty.len()
        invariant
            0 <= i <= dirty@.len(),
            queue@.pending == enqueued_all(start, dirty@.take(i as int)),
        decreases dirty@.len() - i,
    {
        proof {
            assert(dirty@.take(i + 1).drop_last() =~= dirty@.take(i as int));
        }
        queue.enqueue(dirty[i]);
        i = i + 1;
    }
    proof {
        assert(dirty@.take(dirty@.len() as int) =~= dirty@);
    }
    true
}

// ---------------------------------------------------------------------------
// Sending dirty chunks to meshing
// ---------------------------------------------------------------------------

/// The next dirty chunk to mesh during play, unless `MAX_PENDING_NORMAL_MESH_JOBS`
/// normal mesh jobs are pending: the queue is popped as by `DirtyMeshQueue::pop_dirty`.
pub fn next_dirty_chunk<T: TerrainSource>(
    world: &VoxelWorld<T>,
    queue: &mut DirtyMeshQueue,
    jobs: &ChunkJobTracker,
) -> (r: Option<ChunkCoord>)
    requires
        world.wf(),
    ensures
        jobs@.meshes.len() >= MAX_PENDING_NORMAL_MESH_JOBS ==> r is None && final(queue)@ == old(
            queue,
        )@,
        jobs@.meshes.len() < MAX_PENDING_NORMAL_MESH_JOBS ==> {
            &&& final(queue)@.needs_priority_sort == old(queue)@.needs_priority_sort
            &&& match r {
                None => final(queue)@.pending.len() == 0 && forall|j: int|
                    0 <= j < old(queue)@.pending.len() ==> !is_dirty_in(
                        world@,
                        #[trigger] old(queue)@.pending[j],
                    ),
                Some(c) => exists|k: int|
                    0 <= k < old(queue)@.pending.len() && #[trigger] old(queue)@.pending[k] == c
                        && is_dirty_in(world@, c) && (forall|j: int|
                        0 <= j < k ==> !is_dirty_in(world@, #[trigger] old(queue)@.pending[j]))
                        && final(queue)@.pending == old(queue)@.pending.subrange(
                        k + 1,
                        old(queue)@.pending.len() as int,
                    ),
            }
        },
{
    if jobs.normal_mesh_pending_count() >= MAX_PENDING_NORMAL_MESH_JOBS {
        return None;
    }
    queue.pop_dirty(world)
}

/// What happens to a dirty chunk taken from the queue during play.
pub enum DirtyMeshStep {
    /// The chunk is not a render candidate, already has a mesh job pending, or is no
    /// longer loaded: it is left.
    Skip,
    /// The chunk is out of view: it waits again at the back of the queue.
    Deferred,
    /// Send this copy to the normal-priority mesh worker (its job is now reserved).
    Send(ChunkMeshInput),
}

/// Decides what happens to the dirty chunk `chunk.coord` taken from the queue, given
/// whether the camera sees it: a chunk that is not a render candidate is left; one out
/// of view waits again; one with a mesh job pending is left; otherwise its copy goes to
/// the normal-priority mesh worker, its job reserved in `jobs`.
pub fn dirty_mesh_step<T: TerrainSource>(
    world: &VoxelWorld<T>,
    queue: &mut DirtyMeshQueue,
    jobs: &mut ChunkJobTracker,
    center: ChunkCoord,
    settings: WorldStreamingSettings,
    chunk: SightedChunk,
) -> (r: DirtyMeshStep)
    requires
        world.wf(),
        sight_in_range(center, chunk),
        has_neighbor_coords(chunk.coord),
        settings.render_radius * settings.render_radius <= i32::MAX,
    ensures
        ({
            let c = chunk.coord;
            let m = world@;
            if !render_candidate(m, center, c, settings) {
                r is Skip && final(queue)@ == old(queue)@ && final(jobs)@ == old(jobs)@
            } else if !chunk.visible {
                &&& r is Deferred
                &&& final(queue)@.pending == enqueued(old(queue)@.pending, c)
                &&& final(queue)@.needs_priority_sort == (old(queue)@.needs_priority_sort || !old(
                    queue,
                )@.pending.contains(c))
                &&& final(jobs)@ == old(jobs)@
            } else if old(jobs)@.meshes.contains(c) || old(jobs)@.priority_meshes.contains(c) {
                r is Skip && final(queue)@ == old(queue)@ && final(jobs)@ == old(jobs)@
            } else {
                &&& final(queue)@ == old(queue)@
                &&& final(jobs)@ == (ChunkJobTrackerView {
                    meshes: old(jobs)@.meshes.insert(c),
                    ..old(jobs)@
                })
                &&& match r {
                    DirtyMeshStep::Send(input) => {
                        &&& input.coord == c
                        &&& input.center@ == m[c]
                        &&& input.revision == m[c].revision
                        &&& input.neighbor_borders@ == captured_borders(m, c)
                    },
                    _ => false,
                }
            }
        }),
{
    let coord = chunk.coord;
    if !chunk_is_render_candidate(world, center, coord, settings) {
        return DirtyMeshStep::Skip;
    }
    if !chunk.visible {
        queue.enqueue(coord);
        return DirtyMeshStep::Deferred;
    }
    if jobs.is_mesh_pending(coord) {
        return DirtyMeshStep::Skip;
    }
    let input = match ChunkMeshInput::from_world(world, coord) {
        Some(input) => input,
        None => return DirtyMeshStep::Skip,
    };
    jobs.reserve_mesh(coord, MeshJobPriority::Normal);
    DirtyMeshStep::Send(input)
}

// ---------------------------------------------------------------------------
// After an edit
// ---------------------------------------------------------------------------

/// What an edit of the world leaves for the window loop.
pub struct InteractionFollowup {
    /// The world must be saved.
    pub save_needed: bool,
    /// Copies to send to the priority mesh worker; their jobs are reserved.
    pub mesh_jobs: Vec<ChunkMeshInput>,
}

/// The chunks an interaction edited.
pub open spec fn interaction_modified_spec(interaction: BlockInteraction) -> Seq<ChunkCoord> {
    match interaction {
        BlockInteraction::Break { hit, .. } => seq![hit.chunk_coord],
        BlockInteraction::Place { placed_block, .. } => seq![chunk_of(placed_block)],
        _ => Seq::<ChunkCoord>::empty(),
    }
}

/// Blocks an interaction changed.
pub open spec fn interaction_changes(interaction: BlockInteraction) -> usize {
    match interaction {
        BlockInteraction::Break { summary, .. } => summary.changed_blocks,
        BlockInteraction::Place { summary, .. } => summary.changed_blocks,
        _ => 0usize,
    }
}

/// Selects the loaded chunks without a pending priority mesh job.
pub open spec fn priority_job_wanted(
    m: Map<ChunkCoord, ChunkView>,
    pending: Set<ChunkCoord>,
) -> spec_fn(ChunkCoord) -> bool {
    |c: ChunkCoord| m.contains_key(c) && !pending.contains(c)
}

/// The chunks an interaction edited lie inside the world's chunk range.
pub open spec fn interaction_in_world(interaction: BlockInteraction) -> bool {
    match interaction {
        BlockInteraction::Break { hit, .. } => chunk_in_world_range(hit.chunk_coord),
        BlockInteraction::Place { hit, placed_block, .. } => chunk_in_world_range(hit.chunk_coord)
            && chunk_in_world_range(chunk_of(placed_block)),
        _ => true,
    }
}

proof fn lemma_neighbors_in_range(c: ChunkCoord)
    requires
        chunk_in_world_range(c),
    ensures
        has_neighbor_coords(c),
        forall|i: int| 0 <= i < 6 ==> has_neighbor_coords(#[trigger] neighbor_seq(c)[i]),
{
}

proof fn lemma_priority_chunks_in_range(interaction: BlockInteraction)
    requires
        interaction_in_world(interaction),
    ensures
        interaction_in_range(interaction),
        interaction_priority_spec(interaction).no_duplicates(),
        forall|i: int|
            0 <= i < interaction_priority_spec(interaction).len() ==> has_neighbor_coords(
                #[trigger] interaction_priority_spec(interaction)[i],
            ),
{
    match interaction {
        BlockInteraction::Break { hit, .. } => {
            let s = seq![hit.chunk_coord] + neighbor_seq(hit.chunk_coord);
            lemma_dedup_coords(s);
            lemma_neighbors_in_range(hit.chunk_coord);
            assert forall|i: int| 0 <= i < dedup_coords(s).len() implies has_neighbor_coords(
                #[trigger] dedup_coords(s)[i],
            ) by {
                assert(dedup_coords(s).contains(dedup_coords(s)[i]));
                let a = choose|a: int| 0 <= a < s.len() && s[a] == dedup_coords(s)[i];
                if a > 0 {
                    assert(s[a] == neighbor_seq(hit.chunk_coord)[a - 1]);
                }
            }
        },
        BlockInteraction::Place { hit, placed_block, .. } => {
            let p = chunk_of(placed_block);
            let s = seq![p, hit.chunk_coord] + neighbor_seq(p) + neighbor_seq(hit.chunk_coord);
            lemma_dedup_coords(s);
            lemma_neighbors_in_range(hit.chunk_coord);
            lemma_neighbors_in_range(p);
            assert forall|i: int| 0 <= i < dedup_coords(s).len() implies has_neighbor_coords(
                #[trigger] dedup_coords(s)[i],
            ) by {
                assert(dedup_coords(s).contains(dedup_coords(s)[i]));
                let a = choose|a: int| 0 <= a < s.len() && s[a] == dedup_coords(s)[i];
                if 2 <= a < 8 {
                    assert(s[a] == neighbor_seq(p)[a - 2]);
                } else if a >= 8 {
                    assert(s[a] == neighbor_seq(hit.chunk_coord)[a - 8]);
                }
            }
        },
        _ => {},
    }
}

/// `v` with each of `cs` added unless it is there.
pub open spec fn added_all(v: Seq<ChunkCoord>, cs: Seq<ChunkCoord>) -> Seq<ChunkCoord> {
    enqueued_all(v, cs)
}

/// Follows up an interaction: when it changed blocks, the world needs saving, the
/// edited chunks join `modified`, the chunks whose meshes changed go first in the
/// dirty-mesh queue, and those of them loaded and without a pending priority mesh job
/// are copied for the priority mesh worker (their jobs reserved). An interaction that
/// changed nothing changes nothing.
pub fn after_block_interaction<T: TerrainSource>(
    world: &VoxelWorld<T>,
    queue: &mut DirtyMeshQueue,
    jobs: &mut ChunkJobTracker,
    modified: &mut Vec<ChunkCoord>,
    interaction: BlockInteraction,
) -> (r: InteractionFollowup)
    requires
        world.wf(),
        interaction_in_world(interaction),
    ensures
        interaction_changes(interaction) == 0 ==> {
            &&& !r.save_needed
            &&& r.mesh_jobs@.len() == 0
            &&& final(queue)@ == old(queue)@
            &&& final(jobs)@ == old(jobs)@
            &&& final(modified)@ == old(modified)@
        },
        interaction_changes(interaction) > 0 ==> {
            let prio = interaction_priority_spec(interaction);
            let sent = prio.filter(priority_job_wanted(world@, old(jobs)@.priority_meshes));
            &&& r.save_needed
            &&& final(modified)@ == added_all(old(modified)@, interaction_modified_spec(interaction))
            &&& final(queue)@.pending == moved_all_to_front(old(queue)@.pending, prio)
            &&& final(queue)@.needs_priority_sort == (old(queue)@.needs_priority_sort || prio.len()
                > 0)
            &&& final(jobs)@ == (ChunkJobTrackerView {
                priority_meshes: old(jobs)@.priority_meshes + sent.to_set(),
                ..old(jobs)@
            })
            &&& r.mesh_jobs@.len() == sent.len()
            &&& forall|i: int|
                0 <= i < sent.len() ==> {
                    let input = #[trigger] r.mesh_jobs@[i];
                    &&& input.coord == sent[i]
                    &&& input.center@ == world@[sent[i]]
                    &&& input.revision == world@[sent[i]].revision
                    &&& input.neighbor_borders@ == captured_borders(world@, sent[i])
                }
        },
{
    let mut mesh_jobs: Vec<ChunkMeshInput> = Vec::new();
    if changed_block_count(interaction) == 0 {
        return InteractionFollowup { save_needed: false, mesh_jobs };
    }
    let edited = interaction_modified_chunks(interaction);
    let ghost start = modified@;
    let mut i: usize = 0;
    proof {
        assert(edited@.take(0) =~= Seq::<ChunkCoord>::empty());
    }
    while i < edited.len()
        invariant
            0 <= i <= edited@.len(),
            modified@ == enqueued_all(start, edited@.take(i as int)),
        decreases edited@.len() - i,
    {
        proof {
            assert(edited@.take(i + 1).drop_last() =~= edited@.take(i as int));
        }
        push_unique_chunk_coord(modified, edited[i]);
        i = i + 1;
    }
    proof {
        assert(edited@.take(edited@.len() as int) =~= edited@);
    }

    proof {
        lemma_priority_chunks_in_range(interaction);
    }
    let prio = interaction_priority_chunks(interaction);
    queue.enqueue_priority(prio.as_slice());

    let ghost m = world@;
    let ghost pending = jobs@.priority_meshes;
    let ghost j0 = jobs@;
    let ghost want = priority_job_wanted(m, pending);
    proof {
        reveal(Seq::filter);
        assert(prio@.take(0) =~= Seq::<ChunkCoord>::empty());
        assert(pending + Seq::<ChunkCoord>::empty().to_set() =~= pending);
    }
    let mut k: usize = 0;
    while k < prio.len()
        invariant
            0 <= k <= prio@.len(),
            world.wf(),
            world@ == m,
            want == priority_job_wanted(m, pending),
            prio@.no_duplicates(),
            forall|a: int| 0 <= a < prio@.len() ==> has_neighbor_coords(#[trigger] prio@[a]),
            jobs@ == (ChunkJobTrackerView {
                priority_meshes: pending + prio@.take(k as int).filter(want).to_set(),
                ..j0
            }),
            mesh_jobs@.len() == prio@.take(k as int).filter(want).len(),
            forall|a: int|
                0 <= a < mesh_jobs@.len() ==> {
                    let input = #[trigger] mesh_jobs@[a];
                    let c = prio@.take(k as int).filter(want)[a];
                    &&& input.coord == c
                    &&& input.center@ == m[c]
                    &&& input.revision == m[c].revision
                    &&& input.neighbor_borders@ == captured_borders(m, c)
                },
        decreases prio@.len() - k,
    {
        let coord = prio[k];
        let ghost before = prio@.take(k as int).filter(want);
        proof {
            reveal(Seq::filter);
            assert(prio@.take(k + 1).drop_last() =~= prio@.take(k as int));
            assert(prio@.take(k + 1).last() == coord);
            assert(!before.contains(coord)) by {
                if before.contains(coord) {
                    prio@.take(k as int).lemma_filter_contains_rev(want, coord);
                    let a = choose|a: int| 0 <= a < k && prio@.take(k as int)[a] == coord;
                    assert(prio@[a] == prio@[k as int]);
                }
            }
        }
        match ChunkMeshInput::from_world(world, coord) {
            None => {},
            Some(input) => {
                if jobs.reserve_mesh(coord, MeshJobPriority::Priority) {
                    mesh_jobs.push(input);
                    proof {
                        before.lemma_push_to_set_commute(coord);
                        assert((pending + before.to_set()).insert(coord) =~= pending + before.push(
                            coord,
                        ).to_set());
                    }
                } else {
                    proof {
                        assert((pending + before.to_set()).contains(coord));
                        assert(pending.contains(coord)) by {
                            if !pending.contains(coord) {
                                assert(before.to_set().contains(coord));
                                assert(before.contains(coord));
                            }
                        }
                        assert((pending + before.to_set()).insert(coord) =~= pending
                            + before.to_set());
                    }
                }
            },
        }
        k = k + 1;
    }
    proof {
        assert(prio@.take(prio@.len() as int) =~= prio@);
    }
    InteractionFollowup { save_needed: true, mesh_jobs }
}

} // verus!
