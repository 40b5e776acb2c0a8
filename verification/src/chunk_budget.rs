//! Keeping the loaded world within its chunk budget.

use vstd::prelude::*;

use crate::client::{
    all_marked, chunk_dist_fits, chunk_dist_sq, chunk_distance_key, chunk_is_render_candidate,
    contains_coord, moved_all_to_front, render_candidate, DirtyMeshQueue,
};
use crate::world::{marked, WorldStreamingSettings};
use crate::coords::ChunkCoord;
use crate::ordering::{
    apply_order, entry_before, is_sorting_order, lemma_yzx_injective, priority_lt, sorted_order,
    yzx_priority, ChunkPriority,
};
use crate::terrain::TerrainSource;
use crate::voxels::ChunkView;
use crate::world::VoxelWorld;

verus! {

/// Largest number of chunks kept loaded.
pub const MAX_ACTIVE_WORLD_CHUNKS: usize = 640;

/// A loaded chunk that may be unloaded: one that the player has not changed.
pub open spec fn removable(m: Map<ChunkCoord, ChunkView>, modified: Seq<ChunkCoord>, c: ChunkCoord) -> bool {
    m.contains_key(c) && !modified.contains(c)
}

/// The order in which chunks are unloaded: farthest from `center` first, and by `y`,
/// `z`, `x` among chunks at the same distance.
pub open spec fn pruned_before(center: ChunkCoord, a: ChunkCoord, b: ChunkCoord) -> bool {
    ||| chunk_dist_sq(center, a) > chunk_dist_sq(center, b)
    ||| chunk_dist_sq(center, a) == chunk_dist_sq(center, b) && priority_lt(
        yzx_priority(a),
        yzx_priority(b),
    )
}

/// The sort key that puts chunks in unloading order.
pub open spec fn prune_key(center: ChunkCoord, c: ChunkCoord) -> ChunkPriority {
    ChunkPriority {
        rank: 0,
        depth: (0 - chunk_dist_sq(center, c)) as i32,
        distance: 0,
        y: c.y,
        z: c.z,
        x: c.x,
    }
}

proof fn lemma_prune_key_order(center: ChunkCoord, a: ChunkCoord, b: ChunkCoord)
    requires
        chunk_dist_fits(center, a),
        chunk_dist_fits(center, b),
    ensures
        chunk_dist_sq(center, a) >= 0,
        priority_lt(prune_key(center, a), prune_key(center, b)) == pruned_before(center, a, b),
        prune_key(center, a) == prune_key(center, b) ==> a == b,
{
    assert(chunk_dist_sq(center, a) >= 0 && chunk_dist_sq(center, b) >= 0) by (nonlinear_arith)
        requires
            chunk_dist_sq(center, a) == (a.x - center.x) * (a.x - center.x) + (a.y - center.y) * (
            a.y - center.y) + (a.z - center.z) * (a.z - center.z),
            chunk_dist_sq(center, b) == (b.x - center.x) * (b.x - center.x) + (b.y - center.y) * (
            b.y - center.y) + (b.z - center.z) * (b.z - center.z),
    ;
    lemma_yzx_injective(a, b);
}

/// Unloads chunks when more than `max_active` are loaded: of the chunks not listed in
/// `modified`, the farthest from `center` (by `y`, `z`, `x` at equal distance), as many
/// as are loaded beyond `max_active`, or all of them when there are fewer. Returns the
/// unloaded coordinates in that order.
pub fn prune_loaded_chunks<T: TerrainSource>(
    world: &mut VoxelWorld<T>,
    center: ChunkCoord,
    modified: &Vec<ChunkCoord>,
    max_active: usize,
) -> (removed: Vec<ChunkCoord>)
    requires
        old(world).wf(),
        forall|c: ChunkCoord| #[trigger] old(world)@.contains_key(c) ==> chunk_dist_fits(center, c),
    ensures
        final(world).wf(),
        ({
            let m = old(world)@;
            let excess = if old(world).loaded_count() > max_active {
                old(world).loaded_count() - max_active
            } else {
                0
            };
            &&& removed@.len() <= excess
            &&& removed@.len() < excess ==> forall|c: ChunkCoord|
                removable(m, modified@, c) ==> #[trigger] removed@.contains(c)
            &&& forall|i: int|
                0 <= i < removed@.len() ==> removable(m, modified@, #[trigger] removed@[i])
            &&& forall|i: int, j: int|
                0 <= i < j < removed@.len() ==> pruned_before(
                    center,
                    #[trigger] removed@[i],
                    #[trigger] removed@[j],
                )
            &&& forall|c: ChunkCoord, i: int|
                removable(m, modified@, c) && !removed@.contains(c) && 0 <= i < removed@.len()
                    ==> #[trigger] pruned_before(center, removed@[i], c)
            &&& final(world)@ == m.remove_keys(removed@.to_set())
            &&& final(world).loaded_count() == old(world).loaded_count() - removed@.len()
        }),
{
    let ghost m = world@;
    let count = world.chunk_count();
    if count <= max_active {
        let removed: Vec<ChunkCoord> = Vec::new();
        assert(m.remove_keys(removed@.to_set()) =~= m);
        return removed;
    }
    let excess = count - max_active;
    let coords = world.loaded_chunk_coords();

    let mut candidates: Vec<ChunkCoord> = Vec::new();
    let mut keys: Vec<ChunkPriority> = Vec::new();
    let mut i: usize = 0;
    while i < coords.len()
        invariant
            0 <= i <= coords@.len(),
            forall|c: ChunkCoord| coords@.contains(c) <==> m.contains_key(c),
            forall|a: int, b: int|
                0 <= a < b < coords@.len() ==> priority_lt(
                    yzx_priority(#[trigger] coords@[a]),
                    yzx_priority(#[trigger] coords@[b]),
                ),
            forall|c: ChunkCoord| #[trigger] m.contains_key(c) ==> chunk_dist_fits(center, c),
            candidates@.len() == keys@.len(),
            forall|a: int|
                0 <= a < keys@.len() ==> #[trigger] keys@[a] == prune_key(center, candidates@[a]),
            forall|a: int|
                0 <= a < candidates@.len() ==> exists|p: int|
                    0 <= p < i && coords@[p] == #[trigger] candidates@[a],
            forall|a: int, b: int|
                0 <= a < b < candidates@.len() ==> priority_lt(
                    yzx_priority(#[trigger] candidates@[a]),
                    yzx_priority(#[trigger] candidates@[b]),
                ),
            forall|a: int| 0 <= a < candidates@.len() ==> !modified@.contains(#[trigger] candidates@[a]),
            forall|p: int|
                0 <= p < i && !modified@.contains(#[trigger] coords@[p]) ==> candidates@.contains(
                    coords@[p],
                ),
        decreases coords@.len() - i,
    {
        let c = coords[i];
        proof {
            assert(coords@.contains(c));
        }
        if !contains_coord(modified, c) {
            proof {
                lemma_prune_key_order(center, c, c);
            }
            let d = chunk_distance_key(center, c);
            let ghost before = candidates@;
            proof {
                assert forall|a: int| 0 <= a < before.len() implies priority_lt(
                    yzx_priority(#[trigger] before[a]),
                    yzx_priority(c),
                ) by {
                    let p = choose|p: int| 0 <= p < i && coords@[p] == before[a];
                    assert(coords@[p] == before[a]);
                }
            }
            candidates.push(c);
            keys.push(ChunkPriority { rank: 0, depth: -d, distance: 0, y: c.y, z: c.z, x: c.x });
            proof {
                assert(candidates@[before.len() as int] == c);
                assert forall|a: int|
                    0 <= a < candidates@.len() implies exists|p: int|
                        0 <= p < i + 1 && coords@[p] == #[trigger] candidates@[a] by {
                    if a < before.len() {
                        let p = choose|p: int| 0 <= p < i && coords@[p] == before[a];
                        assert(coords@[p] == candidates@[a]);
                    } else {
                        assert(coords@[i as int] == candidates@[a]);
                    }
                }
                assert forall|p: int|
                    0 <= p < i + 1 && !modified@.contains(#[trigger] coords@[p]) implies candidates@.contains(
                        coords@[p],
                    ) by {
                    if p < i {
                        let a = choose|a: int| 0 <= a < before.len() && before[a] == coords@[p];
                        assert(candidates@[a] == coords@[p]);
                    } else {
                        assert(candidates@[before.len() as int] == coords@[p]);
                    }
                }
            }
        } else {
            proof {
                assert forall|a: int|
                    0 <= a < candidates@.len() implies exists|p: int|
                        0 <= p < i + 1 && coords@[p] == #[trigger] candidates@[a] by {
                    let p = choose|p: int| 0 <= p < i && coords@[p] == candidates@[a];
                    assert(coords@[p] == candidates@[a]);
                }
            }
        }
        i = i + 1;
    }

    let order = sorted_order(keys.as_slice());
    let ghost o = order@.map_values(|x: usize| x as int);
    proof {
        assert forall|a: int| 0 <= a < order@.len() implies #[trigger] order@[a] < candidates@.len() by {
            assert(o[a] == order@[a] as int);
        }
    }
    let mut sorted = apply_order(candidates.as_slice(), order.as_slice());
    let ghost full = sorted@;
    proof {
        assert forall|a: int| 0 <= a < full.len() implies #[trigger] full[a] == candidates@[o[a]] by {
            assert(o[a] == order@[a] as int);
        }
        assert forall|a: int, b: int|
            0 <= a < b < full.len() implies pruned_before(center, #[trigger] full[a], #[trigger] full[b]) by {
            let x = o[a];
            let y = o[b];
            assert(entry_before(keys@, x, y));
            assert(m.contains_key(candidates@[x]) && m.contains_key(candidates@[y])) by {
                let p = choose|p: int| 0 <= p < coords@.len() && coords@[p] == candidates@[x];
                let q = choose|q: int| 0 <= q < coords@.len() && coords@[q] == candidates@[y];
                assert(coords@.contains(coords@[p]));
                assert(coords@.contains(coords@[q]));
            }
            lemma_prune_key_order(center, candidates@[x], candidates@[y]);
            if keys@[x] == keys@[y] {
                assert(candidates@[x] == candidates@[y]);
                if x != y {
                    if x < y {
                        assert(priority_lt(yzx_priority(candidates@[x]), yzx_priority(candidates@[y])));
                    } else {
                        assert(priority_lt(yzx_priority(candidates@[y]), yzx_priority(candidates@[x])));
                    }
                }
                assert(false);
            }
        }
        assert forall|c: ChunkCoord| removable(m, modified@, c) implies #[trigger] full.contains(c) by {
            let p = choose|p: int| 0 <= p < coords@.len() && coords@[p] == c;
            assert(coords@.contains(c));
            assert(candidates@.contains(c));
            let a = choose|a: int| 0 <= a < candidates@.len() && candidates@[a] == c;
            assert(o.contains(a));
            let b = choose|b: int| 0 <= b < o.len() && o[b] == a;
            assert(full[b] == c);
        }
        assert forall|a: int| 0 <= a < full.len() implies removable(m, modified@, #[trigger] full[a]) by {
            let x = o[a];
            let p = choose|p: int| 0 <= p < i && coords@[p] == candidates@[x];
            assert(coords@.contains(coords@[p]));
        }
    }
    sorted.truncate(excess);
    let ghost kept = sorted@;
    proof {
        assert forall|c: ChunkCoord, a: int|
            removable(m, modified@, c) && !kept.contains(c) && 0 <= a < kept.len() implies #[trigger] pruned_before(
            center,
            kept[a],
            c,
        ) by {
            assert(full.contains(c));
            let b = choose|b: int| 0 <= b < full.len() && full[b] == c;
            assert(kept[a] == full[a]);
            if b < kept.len() {
                assert(kept[b] == c);
            }
            assert(a < b);
        }
        assert forall|c: ChunkCoord| removable(m, modified@, c) && kept.len() < excess implies #[trigger] kept.contains(c) by {
            assert(full.contains(c));
            assert(kept =~= full);
        }
    }

    let mut k: usize = 0;
    while k < sorted.len()
        invariant
            0 <= k <= kept.len(),
            sorted@ == kept,
            world.wf(),
            forall|a: int| 0 <= a < kept.len() ==> m.contains_key(#[trigger] kept[a]),
            forall|a: int, b: int|
                0 <= a < b < kept.len() ==> pruned_before(center, #[trigger] kept[a], #[trigger] kept[b]),
            forall|c: ChunkCoord| #[trigger] m.contains_key(c) ==> chunk_dist_fits(center, c),
            world@ == m.remove_keys(kept.subrange(0, k as int).to_set()),
            world.loaded_count() == count - k,
            count > max_active,
        decreases kept.len() - k,
    {
        let c = sorted[k];
        proof {
            assert(!kept.subrange(0, k as int).contains(c)) by {
                if kept.subrange(0, k as int).contains(c) {
                    let a = choose|a: int| 0 <= a < k && kept.subrange(0, k as int)[a] == c;
                    assert(kept[a] == kept[k as int]);
                    lemma_prune_key_order(center, kept[a], kept[k as int]);
                    assert(pruned_before(center, kept[a], kept[k as int]));
                }
            }
            assert(world@.contains_key(c));
        }
        let r = world.remove_chunk(c);
        proof {
            let done = kept.subrange(0, k as int);
            let next = kept.subrange(0, k + 1);
            assert forall|x: ChunkCoord| #[trigger] next.to_set().contains(x) == done.to_set().insert(
                c,
            ).contains(x) by {
                if next.contains(x) {
                    let a = choose|a: int| 0 <= a < next.len() && next[a] == x;
                    if a < k {
                        assert(done[a] == x);
                    }
                }
                if done.contains(x) {
                    let a = choose|a: int| 0 <= a < done.len() && done[a] == x;
                    assert(next[a] == x);
                }
                if x == c {
                    assert(next[k as int] == c);
                }
            }
            assert(next.to_set() =~= done.to_set().insert(c));
            assert(world@ =~= m.remove_keys(kept.subrange(0, k + 1).to_set()));
        }
        k = k + 1;
    }
    proof {
        assert(kept.subrange(0, kept.len() as int) =~= kept);
    }
    sorted
}

// ---------------------------------------------------------------------------
// Drawn meshes within the render radius
// ---------------------------------------------------------------------------

/// Largest number of chunk meshes drawn at once.
pub const MAX_RENDERED_CHUNK_MESHES: usize = 512;

/// Largest number of chunks one render-radius sync sends to meshing.
pub const MAX_NEW_RENDER_MESHES_QUEUED_PER_FRAME: usize = 3;

/// Number of chunks waiting for a mesh beyond which a render-radius sync adds none.
pub const MAX_DIRTY_MESH_QUEUE_BACKLOG: usize = 64;

/// A chunk with what the camera sees of it: whether it lies in the view frustum, and
/// its depth in front of the camera in sixteenths of a block.
#[derive(Debug, Clone, Copy, PartialEq, Eq, Structural)]
pub struct SightedChunk {
    pub coord: ChunkCoord,
    pub visible: bool,
    pub depth_key: i32,
}

/// Drawing rank of a chunk: 0 for a render candidate in view, 1 for another render
/// candidate, 2 for the rest.
pub open spec fn render_rank(
    m: Map<ChunkCoord, ChunkView>,
    center: ChunkCoord,
    settings: WorldStreamingSettings,
    e: SightedChunk,
) -> u8 {
    if render_candidate(m, center, e.coord, settings) {
        if e.visible {
            0u8
        } else {
            1u8
        }
    } else {
        2u8
    }
}

/// The order in which chunks are drawn and meshed: by rank, then nearest to the camera,
/// then nearest to `center`, then by `y`, `z`, `x`.
pub open spec fn render_key(
    m: Map<ChunkCoord, ChunkView>,
    center: ChunkCoord,
    settings: WorldStreamingSettings,
    e: SightedChunk,
) -> ChunkPriority {
    ChunkPriority {
        rank: render_rank(m, center, settings, e),
        depth: e.depth_key,
        distance: chunk_dist_sq(center, e.coord) as i32,
        y: e.coord.y,
        z: e.coord.z,
        x: e.coord.x,
    }
}

/// A chunk whose render candidacy can be decided: its coordinate and distance fit.
pub open spec fn sight_in_range(center: ChunkCoord, e: SightedChunk) -> bool {
    e.coord.y < i32::MAX && chunk_dist_fits(center, e.coord)
}

/// The drawing priority key of a chunk.
pub fn chunk_render_priority_key<T: TerrainSource>(
    world: &VoxelWorld<T>,
    center: ChunkCoord,
    chunk: SightedChunk,
    settings: WorldStreamingSettings,
) -> (k: ChunkPriority)
    requires
        world.wf(),
        sight_in_range(center, chunk),
        settings.render_radius * settings.render_radius <= i32::MAX,
    ensures
        k == render_key(world@, center, settings, chunk),
{
    let candidate = chunk_is_render_candidate(world, center, chunk.coord, settings);
    let rank: u8 = if candidate && chunk.visible {
        0
    } else if candidate {
        1
    } else {
        2
    };
    ChunkPriority {
        rank,
        depth: chunk.depth_key,
        distance: chunk_distance_key(center, chunk.coord),
        y: chunk.coord.y,
        z: chunk.coord.z,
        x: chunk.coord.x,
    }
}

/// A render candidate in view.
pub fn chunk_is_visible_render_candidate<T: TerrainSource>(
    world: &VoxelWorld<T>,
    center: ChunkCoord,
    chunk: SightedChunk,
    settings: WorldStreamingSettings,
) -> (b: bool)
    requires
        world.wf(),
        sight_in_range(center, chunk),
        settings.render_radius * settings.render_radius <= i32::MAX,
    ensures
        b == (render_candidate(world@, center, chunk.coord, settings) && chunk.visible),
{
    chunk_is_render_candidate(world, center, chunk.coord, settings) && chunk.visible
}

/// Selects the render candidates.
pub open spec fn is_candidate(
    m: Map<ChunkCoord, ChunkView>,
    center: ChunkCoord,
    settings: WorldStreamingSettings,
) -> spec_fn(SightedChunk) -> bool {
    |e: SightedChunk| render_candidate(m, center, e.coord, settings)
}

/// Selects the chunks that are not render candidates.
pub open spec fn not_candidate(
    m: Map<ChunkCoord, ChunkView>,
    center: ChunkCoord,
    settings: WorldStreamingSettings,
) -> spec_fn(SightedChunk) -> bool {
    |e: SightedChunk| !render_candidate(m, center, e.coord, settings)
}

/// Selects the render candidates in view that are not among `kept`.
pub open spec fn fresh_visible_candidate(
    m: Map<ChunkCoord, ChunkView>,
    center: ChunkCoord,
    settings: WorldStreamingSettings,
    kept: Seq<ChunkCoord>,
) -> spec_fn(SightedChunk) -> bool {
    |e: SightedChunk| !kept.contains(e.coord) && render_candidate(m, center, e.coord, settings) && e.visible
}

/// The coordinates of `s`.
pub open spec fn coords_of(s: Seq<SightedChunk>) -> Seq<ChunkCoord> {
    s.map_values(|e: SightedChunk| e.coord)
}

/// The drawing keys of `s`.
pub open spec fn render_keys(
    m: Map<ChunkCoord, ChunkView>,
    center: ChunkCoord,
    settings: WorldStreamingSettings,
    s: Seq<SightedChunk>,
) -> Seq<ChunkPriority> {
    s.map_values(|e: SightedChunk| render_key(m, center, settings, e))
}

/// The entries of `s` in the order `order`.
pub open spec fn in_order(s: Seq<SightedChunk>, order: Seq<int>) -> Seq<SightedChunk> {
    order.map_values(|j: int| s[j])
}

/// The drawn meshes that stay: the render candidates among `rendered`, best first by
/// `order`, at most `MAX_RENDERED_CHUNK_MESHES` of them.
pub open spec fn kept_meshes(
    m: Map<ChunkCoord, ChunkView>,
    center: ChunkCoord,
    settings: WorldStreamingSettings,
    rendered: Seq<SightedChunk>,
    order: Seq<int>,
) -> Seq<SightedChunk> {
    let ranked = in_order(rendered.filter(is_candidate(m, center, settings)), order);
    if ranked.len() > MAX_RENDERED_CHUNK_MESHES {
        ranked.take(MAX_RENDERED_CHUNK_MESHES as int)
    } else {
        ranked
    }
}

/// The drawn meshes to drop: those no longer render candidates, in their order, then
/// the candidates beyond the mesh budget, best first.
pub open spec fn dropped_meshes(
    m: Map<ChunkCoord, ChunkView>,
    center: ChunkCoord,
    settings: WorldStreamingSettings,
    rendered: Seq<SightedChunk>,
    order: Seq<int>,
) -> Seq<ChunkCoord> {
    let ranked = in_order(rendered.filter(is_candidate(m, center, settings)), order);
    coords_of(rendered.filter(not_candidate(m, center, settings))) + if ranked.len()
        > MAX_RENDERED_CHUNK_MESHES {
        coords_of(ranked.skip(MAX_RENDERED_CHUNK_MESHES as int))
    } else {
        Seq::empty()
    }
}

/// How many chunks a sync sends to meshing, with `kept` meshes drawn and `pending`
/// chunks waiting for a mesh.
pub open spec fn new_mesh_limit(kept: int, pending: int) -> int {
    let queue_slots = if pending < MAX_DIRTY_MESH_QUEUE_BACKLOG {
        MAX_DIRTY_MESH_QUEUE_BACKLOG - pending
    } else {
        0
    };
    let render_slots = MAX_RENDERED_CHUNK_MESHES - kept;
    let a = if queue_slots < MAX_NEW_RENDER_MESHES_QUEUED_PER_FRAME {
        queue_slots
    } else {
        MAX_NEW_RENDER_MESHES_QUEUED_PER_FRAME as int
    };
    if render_slots < a {
        render_slots
    } else {
        a
    }
}

/// The chunks to mesh: the render candidates in view among `loaded` that are not drawn
/// yet, best first by `order`, as many as `new_mesh_limit` allows.
pub open spec fn meshes_to_queue(
    m: Map<ChunkCoord, ChunkView>,
    center: ChunkCoord,
    settings: WorldStreamingSettings,
    loaded: Seq<SightedChunk>,
    kept: Seq<ChunkCoord>,
    pending: int,
    order: Seq<int>,
) -> Seq<ChunkCoord> {
    let ranked = in_order(loaded.filter(fresh_visible_candidate(m, center, settings, kept)), order);
    let limit = new_mesh_limit(kept.len() as int, pending);
    coords_of(
        if ranked.len() > limit {
            ranked.take(limit)
        } else {
            ranked
        },
    )
}

/// A render sync queues at most 3 chunks for meshing, no more than the free places of
/// the dirty-mesh backlog of 64, and no more than the drawing slots of 512 left by the
/// meshes kept.
pub proof fn lemma_sync_queue_bounded(
    m: Map<ChunkCoord, ChunkView>,
    center: ChunkCoord,
    settings: WorldStreamingSettings,
    loaded: Seq<SightedChunk>,
    kept: Seq<ChunkCoord>,
    pending: int,
    order: Seq<int>,
)
    requires
        kept.len() <= 512,
        0 <= pending,
    ensures
        meshes_to_queue(m, center, settings, loaded, kept, pending, order).len() <= 3,
        meshes_to_queue(m, center, settings, loaded, kept, pending, order).len() <= (if pending < 64 {
            64 - pending
        } else {
            0
        }),
        meshes_to_queue(m, center, settings, loaded, kept, pending, order).len() <= 512 - kept.len(),
{
}

/// What a render-radius sync decided: the meshes to stop drawing, and the chunks sent
/// to meshing (marked wholly dirty and put first in the dirty-mesh queue).
#[derive(Debug)]
pub struct RenderSync {
    pub removed_meshes: Vec<ChunkCoord>,
    pub queued: Vec<ChunkCoord>,
}

/// The entries of `chunks` that `keep` selects, and the others, each in their order.
pub(crate) fn split_chunks<T: TerrainSource>(
    world: &VoxelWorld<T>,
    center: ChunkCoord,
    settings: WorldStreamingSettings,
    chunks: &[SightedChunk],
) -> (r: (Vec<SightedChunk>, Vec<SightedChunk>))
    requires
        world.wf(),
        forall|i: int| 0 <= i < chunks@.len() ==> sight_in_range(center, #[trigger] chunks@[i]),
        settings.render_radius * settings.render_radius <= i32::MAX,
    ensures
        r.0@ == chunks@.filter(is_candidate(world@, center, settings)),
        r.1@ == chunks@.filter(not_candidate(world@, center, settings)),
{
    let ghost keep = is_candidate(world@, center, settings);
    let ghost drop = not_candidate(world@, center, settings);
    let mut kept: Vec<SightedChunk> = Vec::new();
    let mut dropped: Vec<SightedChunk> = Vec::new();
    let mut i: usize = 0;
    proof {
        reveal(Seq::filter);
        assert(chunks@.take(0) =~= Seq::<SightedChunk>::empty());
    }
    while i < chunks.len()
        invariant
            0 <= i <= chunks@.len(),
            world.wf(),
            forall|j: int| 0 <= j < chunks@.len() ==> sight_in_range(center, #[trigger] chunks@[j]),
            settings.render_radius * settings.render_radius <= i32::MAX,
            keep == is_candidate(world@, center, settings),
            drop == not_candidate(world@, center, settings),
            kept@ == chunks@.take(i as int).filter(keep),
            dropped@ == chunks@.take(i as int).filter(drop),
        decreases chunks@.len() - i,
    {
        let e = chunks[i];
        proof {
            reveal(Seq::filter);
            assert(chunks@.take(i + 1).drop_last() =~= chunks@.take(i as int));
            assert(chunks@.take(i + 1).last() == e);
        }
        if chunk_is_render_candidate(world, center, e.coord, settings) {
            kept.push(e);
        } else {
            dropped.push(e);
        }
        i = i + 1;
    }
    proof {
        assert(chunks@.take(chunks@.len() as int) =~= chunks@);
    }
    (kept, dropped)
}

/// The render candidates in view among `chunks` that are not among `kept`, in order.
pub(crate) fn fresh_chunks<T: TerrainSource>(
    world: &VoxelWorld<T>,
    center: ChunkCoord,
    settings: WorldStreamingSettings,
    chunks: &[SightedChunk],
    kept: &Vec<ChunkCoord>,
) -> (r: Vec<SightedChunk>)
    requires
        world.wf(),
        forall|i: int| 0 <= i < chunks@.len() ==> sight_in_range(center, #[trigger] chunks@[i]),
        settings.render_radius * settings.render_radius <= i32::MAX,
    ensures
        r@ == chunks@.filter(fresh_visible_candidate(world@, center, settings, kept@)),
{
    let ghost keep = fresh_visible_candidate(world@, center, settings, kept@);
    let mut found: Vec<SightedChunk> = Vec::new();
    let mut i: usize = 0;
    proof {
        reveal(Seq::filter);
        assert(chunks@.take(0) =~= Seq::<SightedChunk>::empty());
    }
    while i < chunks.len()
        invariant
            0 <= i <= chunks@.len(),
            world.wf(),
            forall|j: int| 0 <= j < chunks@.len() ==> sight_in_range(center, #[trigger] chunks@[j]),
            settings.render_radius * settings.render_radius <= i32::MAX,
            keep == fresh_visible_candidate(world@, center, settings, kept@),
            found@ == chunks@.take(i as int).filter(keep),
        decreases chunks@.len() - i,
    {
        let e = chunks[i];
        proof {
            reveal(Seq::filter);
            assert(chunks@.take(i + 1).drop_last() =~= chunks@.take(i as int));
            assert(chunks@.take(i + 1).last() == e);
        }
        if !contains_coord(kept, e.coord) && chunk_is_visible_render_candidate(
            world,
            center,
            e,
            settings,
        ) {
            found.push(e);
        }
        i = i + 1;
    }
    proof {
        assert(chunks@.take(chunks@.len() as int) =~= chunks@);
    }
    found
}

/// `chunks` in drawing order, with the order used.
pub(crate) fn rank_chunks<T: TerrainSource>(
    world: &VoxelWorld<T>,
    center: ChunkCoord,
    settings: WorldStreamingSettings,
    chunks: &Vec<SightedChunk>,
) -> (r: (Vec<SightedChunk>, Ghost<Seq<int>>))
    requires
        world.wf(),
        forall|i: int| 0 <= i < chunks@.len() ==> sight_in_range(center, #[trigger] chunks@[i]),
        settings.render_radius * settings.render_radius <= i32::MAX,
    ensures
        is_sorting_order(render_keys(world@, center, settings, chunks@), r.1@),
        r.0@ == in_order(chunks@, r.1@),
{
    let mut keys: Vec<ChunkPriority> = Vec::new();
    let mut i: usize = 0;
    while i < chunks.len()
        invariant
            0 <= i <= chunks@.len(),
            world.wf(),
            forall|j: int| 0 <= j < chunks@.len() ==> sight_in_range(center, #[trigger] chunks@[j]),
            settings.render_radius * settings.render_radius <= i32::MAX,
            keys@.len() == i,
            forall|j: int|
                0 <= j < i ==> #[trigger] keys@[j] == render_key(world@, center, settings, chunks@[j]),
        decreases chunks@.len() - i,
    {
        let k = chunk_render_priority_key(world, center, chunks[i], settings);
        keys.push(k);
        i = i + 1;
    }
    proof {
        assert(keys@ =~= render_keys(world@, center, settings, chunks@));
    }
    let order = sorted_order(keys.as_slice());
    let ghost o = order@.map_values(|x: usize| x as int);
    proof {
        assert forall|a: int| 0 <= a < order@.len() implies #[trigger] order@[a] < chunks@.len() by {
            assert(o[a] == order@[a] as int);
        }
    }
    let sorted = apply_order(chunks.as_slice(), order.as_slice());
    proof {
        assert forall|a: int| 0 <= a < sorted@.len() implies #[trigger] sorted@[a] == in_order(
            chunks@,
            o,
        )[a] by {
            assert(o[a] == order@[a] as int);
        }
        assert(sorted@ =~= in_order(chunks@, o));
    }
    (sorted, Ghost(o))
}

/// The coordinates of `chunks`.
pub(crate) fn coords_of_chunks(chunks: &[SightedChunk]) -> (r: Vec<ChunkCoord>)
    ensures
        r@ == coords_of(chunks@),
{
    let mut r: Vec<ChunkCoord> = Vec::new();
    let mut i: usize = 0;
    while i < chunks.len()
        invariant
            0 <= i <= chunks@.len(),
            r@ == coords_of(chunks@.take(i as int)),
        decreases chunks@.len() - i,
    {
        proof {
            assert(coords_of(chunks@.take(i + 1)) =~= coords_of(chunks@.take(i as int)).push(
                chunks@[i as int].coord,
            ));
        }
        r.push(chunks[i].coord);
        i = i + 1;
    }
    proof {
        assert(chunks@.take(chunks@.len() as int) =~= chunks@);
    }
    r
}

/// Brings the drawn meshes in line with the render radius around `center`: drops the
/// meshes of `rendered` that are no longer render candidates, and those beyond the
/// mesh budget (keeping the best by drawing order), then sends to meshing the best
/// undrawn render candidates in view among `loaded`, as many as the mesh budget, the
/// dirty-mesh queue's backlog and the per-sync limit allow.
pub fn sync_render_radius<T: TerrainSource>(
    world: &mut VoxelWorld<T>,
    queue: &mut DirtyMeshQueue,
    center: ChunkCoord,
    settings: WorldStreamingSettings,
    rendered: &[SightedChunk],
    loaded: &[SightedChunk],
) -> (r: RenderSync)
    requires
        old(world).wf(),
        settings.render_radius * settings.render_radius <= i32::MAX,
        forall|i: int| 0 <= i < rendered@.len() ==> sight_in_range(center, #[trigger] rendered@[i]),
        forall|i: int| 0 <= i < loaded@.len() ==> sight_in_range(center, #[trigger] loaded@[i]),
    ensures
        final(world).wf(),
        exists|o1: Seq<int>, o2: Seq<int>|
            #![trigger dropped_meshes(old(world)@, center, settings, rendered@, o1), meshes_to_queue(old(world)@, center, settings, loaded@, coords_of(kept_meshes(old(world)@, center, settings, rendered@, o1)), old(queue)@.pending.len() as int, o2)]
            {
                let m = old(world)@;
                let kept = coords_of(kept_meshes(m, center, settings, rendered@, o1));
                &&& is_sorting_order(
                    render_keys(m, center, settings, rendered@.filter(is_candidate(m, center, settings))),
                    o1,
                )
                &&& is_sorting_order(
                    render_keys(
                        m,
                        center,
                        settings,
                        loaded@.filter(fresh_visible_candidate(m, center, settings, kept)),
                    ),
                    o2,
                )
                &&& r.removed_meshes@ == dropped_meshes(m, center, settings, rendered@, o1)
                &&& r.queued@ == meshes_to_queue(
                    m,
                    center,
                    settings,
                    loaded@,
                    kept,
                    old(queue)@.pending.len() as int,
                    o2,
                )
            },
        final(world)@ == all_marked(old(world)@, r.queued@),
        final(queue)@.pending == moved_all_to_front(old(queue)@.pending, r.queued@),
        final(queue)@.needs_priority_sort == (old(queue)@.needs_priority_sort || r.queued@.len() > 0),
        r.queued@.len() <= MAX_NEW_RENDER_MESHES_QUEUED_PER_FRAME,
        r.queued@.len() <= MAX_DIRTY_MESH_QUEUE_BACKLOG - old(queue)@.pending.len() || r.queued@.len() == 0,
{
    let ghost m = world@;
    let ghost pending = queue@.pending.len() as int;
    let (candidates, stale) = split_chunks(world, center, settings, rendered);
    proof {
        let cands = rendered@.filter(is_candidate(m, center, settings));
        assert forall|i: int| 0 <= i < candidates@.len() implies sight_in_range(center, #[trigger] candidates@[i]) by {
            assert(candidates@.contains(candidates@[i]));
            rendered@.lemma_filter_contains_rev(is_candidate(m, center, settings), candidates@[i]);
        }
    }
    let (mut ranked, Ghost(o1)) = rank_chunks(world, center, settings, &candidates);
    let ghost full = ranked@;
    let mut removed = coords_of_chunks(stale.as_slice());
    if ranked.len() > MAX_RENDERED_CHUNK_MESHES {
        let mut k: usize = MAX_RENDERED_CHUNK_MESHES;
        let ghost base = removed@;
        while k < ranked.len()
            invariant
                MAX_RENDERED_CHUNK_MESHES <= k <= ranked@.len(),
                ranked@ == full,
                removed@ == base + coords_of(full.subrange(MAX_RENDERED_CHUNK_MESHES as int, k as int)),
            decreases ranked@.len() - k,
        {
            proof {
                assert(coords_of(full.subrange(MAX_RENDERED_CHUNK_MESHES as int, k + 1)) =~= coords_of(
                    full.subrange(MAX_RENDERED_CHUNK_MESHES as int, k as int),
                ).push(full[k as int].coord));
            }
            removed.push(ranked[k].coord);
            k = k + 1;
        }
        proof {
            assert(full.subrange(MAX_RENDERED_CHUNK_MESHES as int, full.len() as int) =~= full.skip(
                MAX_RENDERED_CHUNK_MESHES as int,
            ));
        }
        ranked.truncate(MAX_RENDERED_CHUNK_MESHES);
    } else {
        proof {
            assert(removed@ =~= removed@ + Seq::<ChunkCoord>::empty());
        }
    }
    let kept = coords_of_chunks(ranked.as_slice());
    proof {
        if full.len() > MAX_RENDERED_CHUNK_MESHES {
            assert(ranked@ =~= full.take(MAX_RENDERED_CHUNK_MESHES as int));
        }
        assert(ranked@ == kept_meshes(m, center, settings, rendered@, o1));
    }

    let render_slots = MAX_RENDERED_CHUNK_MESHES - kept.len();
    let waiting = queue.pending_count();
    let queue_slots = MAX_DIRTY_MESH_QUEUE_BACKLOG.saturating_sub(waiting);
    let mut limit = MAX_NEW_RENDER_MESHES_QUEUED_PER_FRAME;
    if queue_slots < limit {
        limit = queue_slots;
    }
    if render_slots < limit {
        limit = render_slots;
    }
    proof {
        assert(limit as int == new_mesh_limit(kept@.len() as int, pending));
    }

    let fresh = fresh_chunks(world, center, settings, loaded, &kept);
    proof {
        let sel = fresh_visible_candidate(m, center, settings, kept@);
        assert forall|i: int| 0 <= i < fresh@.len() implies sight_in_range(center, #[trigger] fresh@[i]) by {
            assert(fresh@.contains(fresh@[i]));
            loaded@.lemma_filter_contains_rev(sel, fresh@[i]);
        }
    }
    let (mut chosen, Ghost(o2)) = rank_chunks(world, center, settings, &fresh);
    let ghost all_chosen = chosen@;
    chosen.truncate(limit);
    proof {
        if all_chosen.len() > limit {
            assert(chosen@ =~= all_chosen.take(limit as int));
        } else {
            assert(chosen@ =~= all_chosen);
        }
    }
    let queued = coords_of_chunks(chosen.as_slice());

    let mut k: usize = 0;
    proof {
        assert(all_marked(m, queued@.take(0)) =~= m);
    }
    while k < queued.len()
        invariant
            0 <= k <= queued@.len(),
            world.wf(),
            world@ == all_marked(m, queued@.take(k as int)),
        decreases queued@.len() - k,
    {
        let c = queued[k];
        let before = world.mark_all_subchunks_dirty(c);
        proof {
            let prev = queued@.take(k as int);
            let next = queued@.take(k + 1);
            assert(next =~= prev.push(c));
            if before {
                assert forall|x: ChunkCoord| #[trigger] next.contains(x) <==> prev.contains(x) || x == c by {
                    if next.contains(x) {
                        let a = choose|a: int| 0 <= a < next.len() && next[a] == x;
                        if a < k {
                            assert(prev[a] == x);
                        }
                    }
                    if prev.contains(x) {
                        let a = choose|a: int| 0 <= a < prev.len() && prev[a] == x;
                        assert(next[a] == x);
                    }
                    if x == c {
                        assert(next[k as int] == c);
                    }
                }
                let mc = m[c].subchunk_dirty_mask;
                assert((mc | 0xFFu8) | 0xFFu8 == mc | 0xFFu8) by (bit_vector);
                assert(world@ =~= all_marked(m, next));
            } else {
                assert(!m.contains_key(c));
                assert(world@ =~= all_marked(m, next));
            }
        }
        k = k + 1;
    }
    proof {
        assert(queued@.take(queued@.len() as int) =~= queued@);
    }
    queue.enqueue_priority(queued.as_slice());
    proof {
        let kept_s = coords_of(kept_meshes(m, center, settings, rendered@, o1));
        assert(kept@ == kept_s);
        assert(removed@ == dropped_meshes(m, center, settings, rendered@, o1));
        assert(queued@ == meshes_to_queue(m, center, settings, loaded@, kept_s, pending, o2));
        lemma_sync_queue_bounded(m, center, settings, loaded@, kept_s, pending, o2);
    }
    RenderSync { removed_meshes: removed, queued }
}

} // verus!
