//! Loading a world before play: the chunks around the camera are generated (or taken
//! from the save), then the drawn ones are meshed, a few per frame.
//!
//! The frame loop drives the steps: it looks up saved chunks, sends the mesh jobs to
//! the workers and hands back their results.

use vstd::prelude::*;

use crate::chunk_budget::{
    coords_of, coords_of_chunks, fresh_chunks, fresh_visible_candidate, in_order, is_candidate,
    rank_chunks, render_keys, sight_in_range, split_chunks, SightedChunk,
    MAX_RENDERED_CHUNK_MESHES,
};
use crate::client::{render_candidate, DirtyMeshQueue};
use crate::coords::ChunkCoord;
use crate::jobs::{
    apply_mesh_job_result, ChunkJobTracker, ChunkJobTrackerView, MeshJobPriority,
    MeshResultAction,
};
use crate::meshing::{captured_borders, has_neighbor_coords, ChunkMeshInput};
use crate::ordering::is_sorting_order;
use crate::terrain::{chunk_in_world_range, is_generated_chunk, TerrainSource};
use crate::voxels::{Chunk, ChunkView};
use crate::world::{VoxelWorld, WorldStreamingSettings};

verus! {

/// The stage of loading.
#[derive(Debug, Clone, Copy, PartialEq, Eq, Structural)]
pub enum WorldLoadPhase {
    Generating,
    Meshing,
}

/// The abstract state of a world being loaded.
pub struct WorldLoadView {
    pub world: Map<ChunkCoord, ChunkView>,
    pub seed: u64,
    pub coords: Seq<ChunkCoord>,
    pub generated: nat,
    pub phase: WorldLoadPhase,
    pub mesh_queue: Seq<ChunkCoord>,
    pub mesh_target: nat,
    pub mesh_results: nat,
    pub mesh_jobs_queued: nat,
}

/// A world being loaded: `coords` are generated in order, then the chunks to draw are
/// meshed; `mesh_target` is the number of meshes still expected.
pub struct WorldLoadState<T: TerrainSource> {
    world: VoxelWorld<T>,
    coords: Vec<ChunkCoord>,
    next_generation: usize,
    phase: WorldLoadPhase,
    mesh_queue: Vec<ChunkCoord>,
    mesh_next: usize,
    mesh_target_chunks: usize,
    mesh_results: usize,
    mesh_jobs_queued: usize,
}

impl<T: TerrainSource> View for WorldLoadState<T> {
    type V = WorldLoadView;

    closed spec fn view(&self) -> WorldLoadView {
        WorldLoadView {
            world: self.world@,
            seed: self.world.seed_spec(),
            coords: self.coords@,
            generated: self.next_generation as nat,
            phase: self.phase,
            mesh_queue: self.mesh_queue@.skip(self.mesh_next as int),
            mesh_target: self.mesh_target_chunks as nat,
            mesh_results: self.mesh_results as nat,
            mesh_jobs_queued: self.mesh_jobs_queued as nat,
        }
    }
}

/// `a - b`, or 0 when `b` is larger.
pub open spec fn saturating_minus(a: nat, b: nat) -> nat {
    if a > b {
        (a - b) as nat
    } else {
        0
    }
}

/// A chunk with a mesh job of either priority pending.
pub open spec fn mesh_pending(jobs: ChunkJobTrackerView, c: ChunkCoord) -> bool {
    jobs.meshes.contains(c) || jobs.priority_meshes.contains(c)
}

/// A queued chunk that is passed over: its mesh job is pending, or it is not loaded.
pub open spec fn passed_over(m: Map<ChunkCoord, ChunkView>, jobs: ChunkJobTrackerView, c: ChunkCoord) -> bool {
    mesh_pending(jobs, c) || !m.contains_key(c)
}

/// The number of chunks of `s` passed over because they are not loaded; each no longer
/// counts towards the expected meshes.
pub open spec fn unloaded_passes(
    m: Map<ChunkCoord, ChunkView>,
    jobs: ChunkJobTrackerView,
    s: Seq<ChunkCoord>,
) -> nat
    decreases s.len(),
{
    if s.len() == 0 {
        0
    } else {
        unloaded_passes(m, jobs, s.drop_last()) + if !mesh_pending(jobs, s.last())
            && !m.contains_key(s.last()) {
            1nat
        } else {
            0nat
        }
    }
}

/// The worker the next mesh job goes to: the two alternate.
pub open spec fn job_priority(queued: nat) -> MeshJobPriority {
    if queued % 2 == 0 {
        MeshJobPriority::Normal
    } else {
        MeshJobPriority::Priority
    }
}

/// The chunks meshed while loading: the render candidates in view, or, when none is in
/// view, all render candidates; in drawing order by `order`, at most
/// `MAX_RENDERED_CHUNK_MESHES` of them.
pub open spec fn loading_mesh_queue(
    m: Map<ChunkCoord, ChunkView>,
    center: ChunkCoord,
    settings: WorldStreamingSettings,
    sights: Seq<SightedChunk>,
    order: Seq<int>,
) -> Seq<ChunkCoord> {
    let ranked = in_order(loading_candidates(m, center, settings, sights), order);
    coords_of(
        if ranked.len() > MAX_RENDERED_CHUNK_MESHES {
            ranked.take(MAX_RENDERED_CHUNK_MESHES as int)
        } else {
            ranked
        },
    )
}

/// The render candidates in view among `sights`, or all render candidates when none is
/// in view.
pub open spec fn loading_candidates(
    m: Map<ChunkCoord, ChunkView>,
    center: ChunkCoord,
    settings: WorldStreamingSettings,
    sights: Seq<SightedChunk>,
) -> Seq<SightedChunk> {
    let in_view = sights.filter(fresh_visible_candidate(m, center, settings, Seq::empty()));
    if in_view.len() > 0 {
        in_view
    } else {
        sights.filter(is_candidate(m, center, settings))
    }
}

/// Some loading chunk is a render candidate that the camera sees.
pub open spec fn some_candidate_in_view(
    m: Map<ChunkCoord, ChunkView>,
    center: ChunkCoord,
    settings: WorldStreamingSettings,
    sights: Seq<SightedChunk>,
) -> bool {
    exists|i: int| 0 <= i < sights.len() && #[trigger] sights[i].visible && render_candidate(
        m,
        center,
        sights[i].coord,
        settings,
    )
}

/// A chunk that loading may mesh: one of the loading chunks, a render candidate, and
/// one the camera sees whenever some loading candidate is in view.
pub open spec fn meshed_at_load(
    m: Map<ChunkCoord, ChunkView>,
    center: ChunkCoord,
    settings: WorldStreamingSettings,
    sights: Seq<SightedChunk>,
    c: ChunkCoord,
) -> bool {
    exists|e: SightedChunk|
        #[trigger] sights.contains(e) && e.coord == c && render_candidate(m, center, c, settings) && (
        some_candidate_in_view(m, center, settings, sights) ==> e.visible)
}

/// What loading meshes: every queued chunk is a render candidate among the loading
/// chunks, and when some loading candidate is in view, every queued chunk is one the
/// camera sees; candidates out of view are meshed only when none is in view.
pub proof fn lemma_loading_meshes_in_view(
    m: Map<ChunkCoord, ChunkView>,
    center: ChunkCoord,
    settings: WorldStreamingSettings,
    sights: Seq<SightedChunk>,
    order: Seq<int>,
)
    requires
        is_sorting_order(
            render_keys(m, center, settings, loading_candidates(m, center, settings, sights)),
            order,
        ),
    ensures
        forall|k: int|
            0 <= k < loading_mesh_queue(m, center, settings, sights, order).len() ==> #[trigger] meshed_at_load(
                m,
                center,
                settings,
                sights,
                loading_mesh_queue(m, center, settings, sights, order)[k],
            ),
{
    let cands = loading_candidates(m, center, settings, sights);
    let q = loading_mesh_queue(m, center, settings, sights, order);
    let ranked = in_order(cands, order);
    let in_view = sights.filter(fresh_visible_candidate(m, center, settings, Seq::empty()));
    assert(some_candidate_in_view(m, center, settings, sights) ==> in_view.len() > 0) by {
        if some_candidate_in_view(m, center, settings, sights) {
            let i = choose|i: int| 0 <= i < sights.len() && #[trigger] sights[i].visible && render_candidate(
                m,
                center,
                sights[i].coord,
                settings,
            );
            assert(fresh_visible_candidate(m, center, settings, Seq::empty())(sights[i]));
            broadcast use vstd::seq_lib::group_filter_ensures;

            assert(sights.contains(sights[i]));
            assert(in_view.contains(sights[i]));
        }
    }
    assert forall|k: int|
        0 <= k < loading_mesh_queue(m, center, settings, sights, order).len() implies #[trigger] meshed_at_load(
            m,
            center,
            settings,
            sights,
            loading_mesh_queue(m, center, settings, sights, order)[k],
        ) by {
        assert(0 <= order[k] < cands.len());
        let e = cands[order[k]];
        assert(ranked[k] == e);
        assert(q[k] == e.coord);
        assert(cands.contains(e));
        if in_view.len() > 0 {
            sights.lemma_filter_contains_rev(fresh_visible_candidate(m, center, settings, Seq::empty()), e);
        } else {
            sights.lemma_filter_contains_rev(is_candidate(m, center, settings), e);
        }
        assert(sights.contains(e) && e.coord == q[k] && render_candidate(m, center, e.coord, settings)
            && (some_candidate_in_view(m, center, settings, sights) ==> e.visible));
    }
}

/// The mesh job for entry `k` of the mesh queue of `o` was taken: the entries before it
/// were passed over, it was copied for the worker whose turn it is, and its job was
/// reserved.
pub open spec fn mesh_job_taken(
    o: WorldLoadView,
    j: ChunkJobTrackerView,
    f: WorldLoadView,
    fj: ChunkJobTrackerView,
    input: ChunkMeshInput,
    priority: MeshJobPriority,
    k: int,
) -> bool {
    let q = o.mesh_queue;
    &&& 0 <= k < q.len()
    &&& !passed_over(o.world, j, q[k])
    &&& forall|i: int| 0 <= i < k ==> passed_over(o.world, j, #[trigger] q[i])
    &&& f == WorldLoadView {
        mesh_queue: q.skip(k + 1),
        mesh_target: saturating_minus(o.mesh_target, unloaded_passes(o.world, j, q.take(k))),
        ..o
    }
    &&& input.coord == q[k]
    &&& input.center@ == o.world[q[k]]
    &&& input.revision == o.world[q[k]].revision
    &&& input.neighbor_borders@ == captured_borders(o.world, q[k])
    &&& priority == job_priority(o.mesh_jobs_queued)
    &&& fj == j.with_meshes(priority, j.meshes_of(priority).insert(q[k]))
}

impl<T: TerrainSource> WorldLoadState<T> {
    /// The world is consistent, the positions are within their lists, and every
    /// coordinate lies where chunks can be generated and meshed.
    pub closed spec fn wf(&self) -> bool {
        &&& self.world.wf()
        &&& self.next_generation <= self.coords@.len()
        &&& self.mesh_next <= self.mesh_queue@.len()
        &&& forall|i: int| 0 <= i < self.coords@.len() ==> chunk_in_world_range(#[trigger] self.coords@[i])
        &&& forall|i: int|
            0 <= i < self.mesh_queue@.len() ==> has_neighbor_coords(#[trigger] self.mesh_queue@[i])
    }

    /// Starts loading an empty world with the given seed and terrain, generating
    /// `coords` in order.
    pub fn new(seed: u64, terrain: T, coords: Vec<ChunkCoord>) -> (s: Self)
        requires
            forall|i: int| 0 <= i < coords@.len() ==> chunk_in_world_range(#[trigger] coords@[i]),
        ensures
            s.wf(),
            s@.world == Map::<ChunkCoord, ChunkView>::empty(),
            s@.seed == seed,
            s@.coords == coords@,
            s@.generated == 0,
            s@.phase == WorldLoadPhase::Generating,
            s@.mesh_queue.len() == 0,
            s@.mesh_target == 0,
            s@.mesh_results == 0,
            s@.mesh_jobs_queued == 0,
    {
        let s = WorldLoadState {
            world: VoxelWorld::new(seed, terrain),
            coords,
            next_generation: 0,
            phase: WorldLoadPhase::Generating,
            mesh_queue: Vec::new(),
            mesh_next: 0,
            mesh_target_chunks: 0,
            mesh_results: 0,
            mesh_jobs_queued: 0,
        };
        s
    }

    /// The world as loaded so far.
    pub fn world(&self) -> (w: &VoxelWorld<T>)
        requires
            self.wf(),
        ensures
            w@ == self@.world,
            w.seed_spec() == self@.seed,
            w.wf(),
    {
        &self.world
    }

    /// The loaded world, once loading is over.
    pub fn into_world(self) -> (w: VoxelWorld<T>)
        requires
            self.wf(),
        ensures
            w@ == self@.world,
            w.seed_spec() == self@.seed,
            w.wf(),
    {
        self.world
    }

    /// The stage of loading.
    pub fn phase(&self) -> (p: WorldLoadPhase)
        ensures
            p == self@.phase,
    {
        self.phase
    }

    /// Number of chunks generated so far.
    pub fn generated_chunks(&self) -> (n: usize)
        ensures
            n == self@.generated,
    {
        self.next_generation
    }

    /// Number of chunks to generate.
    pub fn chunk_total(&self) -> (n: usize)
        ensures
            n == self@.coords.len(),
    {
        self.coords.len()
    }

    /// Number of meshes taken in.
    pub fn mesh_results(&self) -> (n: usize)
        ensures
            n == self@.mesh_results,
    {
        self.mesh_results
    }

    /// Number of meshes expected.
    pub fn mesh_target_chunks(&self) -> (n: usize)
        ensures
            n == self@.mesh_target,
    {
        self.mesh_target_chunks
    }

    /// The chunk generated next, while generating and some remain.
    pub fn next_generation_coord(&self) -> (r: Option<ChunkCoord>)
        requires
            self.wf(),
        ensures
            r == (if self@.phase == WorldLoadPhase::Generating && self@.generated < self@.coords.len() {
                Some(self@.coords[self@.generated as int])
            } else {
                None
            }),
    {
        if self.phase == WorldLoadPhase::Generating && self.next_generation < self.coords.len() {
            Some(self.coords[self.next_generation])
        } else {
            None
        }
    }

    /// Generates the next chunk, or takes its saved copy `saved`, and adds it unless a
    /// chunk is loaded there; nothing happens once all are generated or meshing began.
    pub fn generate_next(&mut self, saved: Option<Chunk>)
        requires
            old(self).wf(),
            saved matches Some(c) ==> c.wf() && (old(self)@.generated < old(self)@.coords.len()
                ==> c@.coord == old(self)@.coords[old(self)@.generated as int]),
        ensures
            final(self).wf(),
            ({
                let o = old(self)@;
                let f = final(self)@;
                if o.phase == WorldLoadPhase::Generating && o.generated < o.coords.len() {
                    let coord = o.coords[o.generated as int];
                    &&& f == WorldLoadView { world: f.world, generated: o.generated + 1, ..o }
                    &&& o.world.contains_key(coord) ==> f.world == o.world
                    &&& !o.world.contains_key(coord) ==> match saved {
                        Some(c) => f.world == o.world.insert(coord, c@),
                        None => exists|v: ChunkView|
                            is_generated_chunk(o.seed, coord, v) && f.world == o.world.insert(coord, v),
                    }
                } else {
                    f == o
                }
            }),
    {
        if self.phase != WorldLoadPhase::Generating || self.next_generation >= self.coords.len() {
            return;
        }
        let coord = self.coords[self.next_generation];
        let chunk = match saved {
            Some(c) => c,
            None => self.world.generate_chunk(coord),
        };
        let ghost v = chunk@;
        self.world.insert_chunk(chunk);
        self.next_generation = self.next_generation + 1;
        proof {
            assert(self.mesh_queue@.skip(self.mesh_next as int) == old(self)@.mesh_queue);
        }
    }

    /// Whether every chunk has been generated.
    pub fn is_generation_complete(&self) -> (b: bool)
        ensures
            b == (self@.generated >= self@.coords.len()),
    {
        self.next_generation >= self.coords.len()
    }

    /// Whether meshing began.
    pub fn meshing_started(&self) -> (b: bool)
        ensures
            b == (self@.phase == WorldLoadPhase::Meshing),
    {
        self.phase == WorldLoadPhase::Meshing
    }

    /// Begins meshing: the chunks to mesh are the render candidates in view among the
    /// loading coordinates, or all render candidates when none is in view, in drawing
    /// order, at most `MAX_RENDERED_CHUNK_MESHES`; as many meshes are expected. `sights`
    /// tells what the camera sees of each loading coordinate, in their order. Nothing
    /// happens once meshing began.
    pub fn start_meshing(
        &mut self,
        center: ChunkCoord,
        settings: WorldStreamingSettings,
        sights: &[SightedChunk],
    )
        requires
            old(self).wf(),
            sights@.len() == old(self)@.coords.len(),
            forall|i: int|
                0 <= i < sights@.len() ==> (#[trigger] sights@[i]).coord == old(self)@.coords[i],
            forall|i: int| 0 <= i < sights@.len() ==> sight_in_range(center, #[trigger] sights@[i]),
            settings.render_radius * settings.render_radius <= i32::MAX,
        ensures
            final(self).wf(),
            old(self)@.phase == WorldLoadPhase::Meshing ==> final(self)@ == old(self)@,
            old(self)@.phase == WorldLoadPhase::Generating ==> exists|order: Seq<int>|
                #[trigger] is_sorting_order(
                    render_keys(
                        old(self)@.world,
                        center,
                        settings,
                        loading_candidates(old(self)@.world, center, settings, sights@),
                    ),
                    order,
                ) && final(self)@ == (WorldLoadView {
                    phase: WorldLoadPhase::Meshing,
                    mesh_queue: loading_mesh_queue(old(self)@.world, center, settings, sights@, order),
                    mesh_target: loading_mesh_queue(
                        old(self)@.world,
                        center,
                        settings,
                        sights@,
                        order,
                    ).len(),
                    ..old(self)@
                }),
    {
        if self.phase == WorldLoadPhase::Meshing {
            return;
        }
        let ghost m = self.world@;
        let no_kept: Vec<ChunkCoord> = Vec::new();
        let mut candidates = fresh_chunks(&self.world, center, settings, sights, &no_kept);
        proof {
            assert(no_kept@ =~= Seq::<ChunkCoord>::empty());
        }
        if candidates.len() == 0 {
            let (all, _) = split_chunks(&self.world, center, settings, sights);
            candidates = all;
        }
        let ghost cands = candidates@;
        proof {
            assert(cands == loading_candidates(m, center, settings, sights@));
            assert forall|i: int| 0 <= i < cands.len() implies sight_in_range(center, #[trigger] cands[i])
                && has_neighbor_coords(cands[i].coord) by {
                assert(cands.contains(cands[i]));
                if sights@.filter(fresh_visible_candidate(m, center, settings, Seq::empty())).len() > 0 {
                    sights@.lemma_filter_contains_rev(
                        fresh_visible_candidate(m, center, settings, Seq::empty()),
                        cands[i],
                    );
                } else {
                    sights@.lemma_filter_contains_rev(is_candidate(m, center, settings), cands[i]);
                }
                let j = choose|j: int| 0 <= j < sights@.len() && sights@[j] == cands[i];
                assert(sights@[j].coord == self.coords@[j]);
                assert(chunk_in_world_range(self.coords@[j]));
            }
        }
        let (mut ranked, Ghost(order)) = rank_chunks(&self.world, center, settings, &candidates);
        let ghost all_ranked = ranked@;
        ranked.truncate(MAX_RENDERED_CHUNK_MESHES);
        proof {
            if all_ranked.len() > MAX_RENDERED_CHUNK_MESHES {
                assert(ranked@ =~= all_ranked.take(MAX_RENDERED_CHUNK_MESHES as int));
            } else {
                assert(ranked@ =~= all_ranked);
            }
        }
        let queue = coords_of_chunks(ranked.as_slice());
        proof {
            assert(queue@ == loading_mesh_queue(m, center, settings, sights@, order));
            assert forall|i: int| 0 <= i < queue@.len() implies has_neighbor_coords(#[trigger] queue@[i]) by {
                let e = ranked@[i];
                assert(queue@[i] == e.coord);
                assert(all_ranked.contains(e)) by {
                    assert(all_ranked[i] == e);
                }
                let a = choose|a: int| 0 <= a < all_ranked.len() && all_ranked[a] == e;
                assert(cands.contains(e));
                let b = choose|b: int| 0 <= b < cands.len() && cands[b] == e;
                assert(has_neighbor_coords(cands[b].coord));
            }
        }
        self.mesh_target_chunks = queue.len();
        self.mesh_queue = queue;
        self.mesh_next = 0;
        self.phase = WorldLoadPhase::Meshing;
        proof {
            assert(self.mesh_queue@.skip(0) =~= self.mesh_queue@);
            assert(is_sorting_order(
                render_keys(m, center, settings, loading_candidates(m, center, settings, sights@)),
                order,
            ));
            let q = loading_mesh_queue(m, center, settings, sights@, order);
            assert(self@.mesh_queue == q);
            assert(self@.mesh_target == q.len());
            assert(self@.world == old(self)@.world);
            assert(self@.coords == old(self)@.coords);
            assert(self@ == (WorldLoadView {
                phase: WorldLoadPhase::Meshing,
                mesh_queue: q,
                mesh_target: q.len(),
                ..old(self)@
            }));
        }
    }

    /// The next mesh job while meshing, unless `max_pending` mesh jobs are pending:
    /// queued chunks whose mesh job is pending are passed over, as are chunks no longer
    /// loaded (each lowering the expected meshes by one); the first other chunk is
    /// copied for a worker, the two workers taking turns, and its job reserved in
    /// `jobs`. The job counts as queued once `mesh_job_sent` is called.
    pub fn next_mesh_job(&mut self, jobs: &mut ChunkJobTracker, max_pending: usize) -> (r: Option<
        (ChunkMeshInput, MeshJobPriority),
    >)
        requires
            old(self).wf(),
        ensures
            final(self).wf(),
            old(self)@.phase != WorldLoadPhase::Meshing || old(jobs)@.meshes.len() + old(
                jobs,
            )@.priority_meshes.len() >= max_pending ==> {
                &&& r is None
                &&& final(self)@ == old(self)@
                &&& final(jobs)@ == old(jobs)@
            },
            old(self)@.phase == WorldLoadPhase::Meshing && old(jobs)@.meshes.len() + old(
                jobs,
            )@.priority_meshes.len() < max_pending ==> {
                let o = old(self)@;
                let j = old(jobs)@;
                let q = o.mesh_queue;
                &&& r is None ==> {
                    &&& forall|i: int| 0 <= i < q.len() ==> passed_over(o.world, j, #[trigger] q[i])
                    &&& final(self)@ == WorldLoadView {
                        mesh_queue: Seq::empty(),
                        mesh_target: saturating_minus(o.mesh_target, unloaded_passes(o.world, j, q)),
                        ..o
                    }
                    &&& final(jobs)@ == j
                }
                &&& r matches Some(job) ==> exists|k: int|
                    #[trigger] mesh_job_taken(o, j, final(self)@, final(jobs)@, job.0, job.1, k)
            },
    {
        if self.phase != WorldLoadPhase::Meshing || jobs.mesh_pending_count() >= max_pending {
            return None;
        }
        let ghost o = self@;
        let ghost j = jobs@;
        let ghost start = self.mesh_next as int;
        let ghost full = self.mesh_queue@;
        proof {
            assert(o.mesh_queue.take(0) =~= Seq::<ChunkCoord>::empty());
        }
        proof {
            if start == full.len() {
                assert(o.mesh_queue.take(0) =~= o.mesh_queue);
                assert(full.skip(start) =~= Seq::<ChunkCoord>::empty());
            }
        }
        let mut found: Option<(ChunkMeshInput, MeshJobPriority)> = None;
        while self.mesh_next < self.mesh_queue.len()
            invariant_except_break
                found is None,
                self@ == (WorldLoadView {
                    mesh_queue: full.skip(self.mesh_next as int),
                    mesh_target: saturating_minus(
                        o.mesh_target,
                        unloaded_passes(o.world, j, o.mesh_queue.take(self.mesh_next - start)),
                    ),
                    ..o
                }),
                forall|i: int|
                    0 <= i < self.mesh_next - start ==> passed_over(o.world, j, #[trigger] o.mesh_queue[i]),
                jobs@ == j,
                self.mesh_next == full.len() ==> o.mesh_queue.take(self.mesh_next - start)
                    == o.mesh_queue && full.skip(self.mesh_next as int) == Seq::<ChunkCoord>::empty(),
            invariant
                self.wf(),
                self.world@ == o.world,
                self.mesh_queue@ == full,
                o.mesh_queue == full.skip(start),
                0 <= start <= self.mesh_next <= full.len(),
                forall|i: int| 0 <= i < full.len() ==> has_neighbor_coords(#[trigger] full[i]),
            ensures
                self.wf(),
                found is None ==> {
                    &&& forall|i: int|
                        0 <= i < o.mesh_queue.len() ==> passed_over(o.world, j, #[trigger] o.mesh_queue[i])
                    &&& self@ == WorldLoadView {
                        mesh_queue: Seq::empty(),
                        mesh_target: saturating_minus(
                            o.mesh_target,
                            unloaded_passes(o.world, j, o.mesh_queue),
                        ),
                        ..o
                    }
                    &&& jobs@ == j
                },
                found matches Some(job) ==> exists|k: int|
                    #[trigger] mesh_job_taken(o, j, self@, jobs@, job.0, job.1, k),
            decreases full.len() - self.mesh_next,
        {
            let coord = self.mesh_queue[self.mesh_next];
            let ghost k = self.mesh_next - start;
            proof {
                assert(o.mesh_queue.len() == full.len() - start);
                assert(o.mesh_queue[k] == full[start + k]);
                assert(o.mesh_queue.take(k + 1).drop_last() =~= o.mesh_queue.take(k));
                assert(o.mesh_queue.take(k + 1).last() == coord);
            }
            self.mesh_next = self.mesh_next + 1;
            if jobs.is_mesh_pending(coord) {
                proof {
                    if self.mesh_next == full.len() {
                        assert(o.mesh_queue.take(full.len() - start) =~= o.mesh_queue);
                        assert(full.skip(full.len() as int) =~= Seq::<ChunkCoord>::empty());
                    }
                }
                continue;
            }
            match ChunkMeshInput::from_world(&self.world, coord) {
                None => {
                    self.mesh_target_chunks = self.mesh_target_chunks.saturating_sub(1);
                    proof {
                        if self.mesh_next == full.len() {
                            assert(o.mesh_queue.take(full.len() - start) =~= o.mesh_queue);
                            assert(full.skip(full.len() as int) =~= Seq::<ChunkCoord>::empty());
                        }
                    }
                },
                Some(input) => {
                    let priority = if self.mesh_jobs_queued % 2 == 0 {
                        MeshJobPriority::Normal
                    } else {
                        MeshJobPriority::Priority
                    };
                    jobs.reserve_mesh(coord, priority);
                    proof {
                        let q = o.mesh_queue;
                        assert(full.skip(self.mesh_next as int) =~= q.skip(k + 1));
                        assert(mesh_job_taken(o, j, self@, jobs@, input, priority, k));
                    }
                    let ghost taken = input;
                    found = Some((input, priority));
                    proof {
                        let job = found->0;
                        assert(job.0 == taken && job.1 == priority);
                        assert(mesh_job_taken(o, j, self@, jobs@, job.0, job.1, k));
                    }
                    break;
                },
            }
        }
        proof {
            if found is None {
                assert(o.mesh_queue.take(full.len() - start) =~= o.mesh_queue);
                assert(full.skip(full.len() as int) =~= Seq::<ChunkCoord>::empty());
            }
        }
        found
    }

    /// A mesh job reserved by `next_mesh_job` was handed to its worker.
    pub fn mesh_job_sent(&mut self)
        requires
            old(self).wf(),
            old(self)@.mesh_jobs_queued < usize::MAX,
        ensures
            final(self).wf(),
            final(self)@ == (WorldLoadView {
                mesh_jobs_queued: old(self)@.mesh_jobs_queued + 1,
                ..old(self)@
            }),
    {
        self.mesh_jobs_queued = self.mesh_jobs_queued + 1;
    }

    /// A mesh job reserved by `next_mesh_job` could not be handed to its worker: its
    /// reservation is released and one mesh fewer is expected.
    pub fn mesh_job_failed(&mut self, jobs: &mut ChunkJobTracker, coord: ChunkCoord, priority: MeshJobPriority)
        requires
            old(self).wf(),
        ensures
            final(self).wf(),
            final(self)@ == (WorldLoadView {
                mesh_target: saturating_minus(old(self)@.mesh_target, 1),
                ..old(self)@
            }),
            final(jobs)@ == old(jobs)@.with_meshes(priority, old(jobs)@.meshes_of(priority).remove(coord)),
    {
        jobs.release_mesh(coord, priority);
        self.mesh_target_chunks = self.mesh_target_chunks.saturating_sub(1);
    }

    /// Takes in a finished mesh (see `apply_mesh_job_result`) and counts it.
    pub fn take_mesh_result(
        &mut self,
        queue: &mut DirtyMeshQueue,
        coord: ChunkCoord,
        revision: u32,
        visible_mask: u8,
    ) -> (a: MeshResultAction)
        requires
            old(self).wf(),
            old(self)@.mesh_results < usize::MAX,
        ensures
            final(self).wf(),
            final(self)@ == (WorldLoadView {
                world: final(self)@.world,
                mesh_results: old(self)@.mesh_results + 1,
                ..old(self)@
            }),
            !old(self)@.world.contains_key(coord) ==> {
                &&& a == MeshResultAction::RemoveMesh
                &&& final(self)@.world == old(self)@.world
                &&& final(queue)@ == old(queue)@
            },
            old(self)@.world.contains_key(coord) && old(self)@.world[coord].revision != revision ==> {
                &&& a == MeshResultAction::Requeued
                &&& final(self)@.world == old(self)@.world
                &&& final(queue)@.pending == crate::client::enqueued(old(queue)@.pending, coord)
            },
            old(self)@.world.contains_key(coord) && old(self)@.world[coord].revision == revision ==> {
                &&& a == MeshResultAction::Upload
                &&& final(self)@.world == old(self)@.world.insert(
                    coord,
                    ChunkView {
                        subchunk_visible_mask: visible_mask,
                        subchunk_dirty_mask: 0,
                        ..old(self)@.world[coord]
                    },
                )
                &&& final(queue)@ == old(queue)@
            },
    {
        let a = apply_mesh_job_result(&mut self.world, queue, coord, revision, visible_mask);
        self.mesh_results = self.mesh_results + 1;
        a
    }

    /// Loading is over: meshing began, no chunk waits to be sent, every expected mesh
    /// came back and no mesh job is pending.
    pub fn is_complete(&self, jobs: &ChunkJobTracker) -> (b: bool)
        requires
            self.wf(),
        ensures
            b == (self@.phase == WorldLoadPhase::Meshing && self@.mesh_queue.len() == 0
                && self@.mesh_results >= self@.mesh_target && jobs@.meshes.len()
                + jobs@.priority_meshes.len() == 0),
    {
        self.phase == WorldLoadPhase::Meshing && self.mesh_next >= self.mesh_queue.len()
            && self.mesh_results >= self.mesh_target_chunks && jobs.mesh_pending_count() == 0
    }
}

} // verus!
