use vstd::prelude::*;

use crate::coords::{BlockPos, ChunkCoord};
use crate::terrain::TerrainSource;
use crate::voxels::{
    lemma_local_index, lemma_view_determined_by_blocks, local_index, BlockId, ChunkView, AIR_BLOCK,
    DIRT_BLOCK, GRASS_BLOCK, STONE_BLOCK,
};
use crate::world::{
    advanced_revision, batch_blocks, batch_chunk, batch_marks, batch_outcome, change_marks, changes_in,
    chunk_of, count_changed, edit_base, edited, edits_target, edits_touch_chunk, lemma_neighbor_marks_self,
    lemma_or_assoc, lemma_zero_or, marked, neighbor_marks, next_revision, own_marks, priors_consistent,
    world_block, BlockEdit, BlockEditSummary, VoxelWorld,
};

verus! {

/// Number of hotbar slots.
pub const HOTBAR_SLOT_COUNT: usize = 9;

/// The abstract state of a hotbar.
pub struct HotbarView {
    pub slots: Seq<BlockId>,
    pub selected_slot: nat,
}

/// Nine block slots, one of them selected.
#[derive(Debug, PartialEq, Eq)]
pub struct Hotbar {
    slots: [BlockId; HOTBAR_SLOT_COUNT],
    selected_slot: usize,
}

impl View for Hotbar {
    type V = HotbarView;

    closed spec fn view(&self) -> HotbarView {
        HotbarView { slots: self.slots@, selected_slot: self.selected_slot as nat }
    }
}

impl Hotbar {
    /// The selected slot is a slot.
    #[verifier::type_invariant]
    spec fn selection_in_range(self) -> bool {
        self.selected_slot < HOTBAR_SLOT_COUNT
    }

    /// A hotbar with the given slots and the first one selected.
    pub fn new(slots: [BlockId; HOTBAR_SLOT_COUNT]) -> (h: Self)
        ensures
            h@.slots == slots@,
            h@.selected_slot == 0,
    {
        Hotbar { slots, selected_slot: 0 }
    }

    /// Dirt, grass and stone in the first three slots, the rest empty, the first
    /// selected.
    pub fn starter() -> (h: Self)
        ensures
            h@.slots == seq![
                DIRT_BLOCK,
                GRASS_BLOCK,
                STONE_BLOCK,
                AIR_BLOCK,
                AIR_BLOCK,
                AIR_BLOCK,
                AIR_BLOCK,
                AIR_BLOCK,
                AIR_BLOCK,
            ],
            h@.selected_slot == 0,
    {
        let h = Self::new(
            [
                DIRT_BLOCK,
                GRASS_BLOCK,
                STONE_BLOCK,
                AIR_BLOCK,
                AIR_BLOCK,
                AIR_BLOCK,
                AIR_BLOCK,
                AIR_BLOCK,
                AIR_BLOCK,
            ],
        );
        assert(h@.slots =~= seq![
            DIRT_BLOCK,
            GRASS_BLOCK,
            STONE_BLOCK,
            AIR_BLOCK,
            AIR_BLOCK,
            AIR_BLOCK,
            AIR_BLOCK,
            AIR_BLOCK,
            AIR_BLOCK,
        ]);
        h
    }

    /// Selects `slot` if it is a slot; returns whether it did.
    pub fn select_slot(&mut self, slot: usize) -> (selected: bool)
        ensures
            selected == (slot < HOTBAR_SLOT_COUNT),
            final(self)@.slots == old(self)@.slots,
            final(self)@.selected_slot == (if selected {
                slot as nat
            } else {
                old(self)@.selected_slot
            }),
    {
        if slot >= HOTBAR_SLOT_COUNT {
            return false;
        }
        self.selected_slot = slot;
        true
    }

    /// The selected slot.
    pub fn selected_slot(&self) -> (slot: usize)
        ensures
            slot == self@.selected_slot,
            slot < HOTBAR_SLOT_COUNT,
    {
        proof {
            use_type_invariant(self);
        }
        self.selected_slot
    }

    /// The block in the selected slot.
    pub fn selected_block(&self) -> (block: BlockId)
        ensures
            block == self@.slots[self@.selected_slot as int],
    {
        proof {
            use_type_invariant(self);
        }
        self.slots[self.selected_slot]
    }

    /// Puts `block` in `slot` if it is a slot; returns whether it did.
    pub fn set_slot(&mut self, slot: usize, block: BlockId) -> (stored: bool)
        ensures
            stored == (slot < HOTBAR_SLOT_COUNT),
            final(self)@.selected_slot == old(self)@.selected_slot,
            final(self)@.slots == (if stored {
                old(self)@.slots.update(slot as int, block)
            } else {
                old(self)@.slots
            }),
    {
        proof {
            use_type_invariant(&*self);
        }
        if slot >= HOTBAR_SLOT_COUNT {
            return false;
        }
        self.slots[slot] = block;
        true
    }

    /// The slots in order.
    pub fn slots(&self) -> (slots: &[BlockId; HOTBAR_SLOT_COUNT])
        ensures
            slots@ == self@.slots,
    {
        &self.slots
    }
}

impl Clone for Hotbar {
    fn clone(&self) -> (h: Self)
        ensures
            h@ == self@,
    {
        proof {
            use_type_invariant(self);
        }
        Hotbar { slots: self.slots, selected_slot: self.selected_slot }
    }
}

/// What a ray cast toward the blocks hit: the block, where it lies, and the face it
/// entered through (all zero when the ray started inside the block).
#[derive(Debug, Clone, Copy, PartialEq, Eq)]
pub struct BlockHit {
    pub world_block: BlockPos,
    pub chunk_coord: ChunkCoord,
    pub local_block: (usize, usize, usize),
    pub block_id: BlockId,
    pub face_normal: [i32; 3],
}

/// The block next to the hit block across the hit face.
pub open spec fn placement_of(hit: BlockHit) -> BlockPos {
    BlockPos {
        x: (hit.world_block.x + hit.face_normal@[0]) as i32,
        y: (hit.world_block.y + hit.face_normal@[1]) as i32,
        z: (hit.world_block.z + hit.face_normal@[2]) as i32,
    }
}

/// The placed block is the hit block moved by the face normal on every axis; a hit
/// through a face (a nonzero normal) places next to the hit block, never on it.
pub proof fn lemma_placement_moves_by_normal(hit: BlockHit)
    requires
        placement_in_range(hit),
    ensures
        placement_of(hit).x == hit.world_block.x + hit.face_normal@[0],
        placement_of(hit).y == hit.world_block.y + hit.face_normal@[1],
        placement_of(hit).z == hit.world_block.z + hit.face_normal@[2],
        !no_face(hit) ==> placement_of(hit) != hit.world_block,
{
}

/// The block next to the hit block across the hit face lies in the world's coordinates.
pub open spec fn placement_in_range(hit: BlockHit) -> bool {
    &&& i32::MIN <= hit.world_block.x + hit.face_normal@[0] <= i32::MAX
    &&& i32::MIN <= hit.world_block.y + hit.face_normal@[1] <= i32::MAX
    &&& i32::MIN <= hit.world_block.z + hit.face_normal@[2] <= i32::MAX
}

/// The hit entered through no face.
pub open spec fn no_face(hit: BlockHit) -> bool {
    hit.face_normal@[0] == 0 && hit.face_normal@[1] == 0 && hit.face_normal@[2] == 0
}

impl BlockHit {
    /// The block next to the hit block across the hit face.
    pub fn placement_block(&self) -> (p: BlockPos)
        requires
            placement_in_range(*self),
        ensures
            p == placement_of(*self),
    {
        BlockPos::new(
            self.world_block.x + self.face_normal[0],
            self.world_block.y + self.face_normal[1],
            self.world_block.z + self.face_normal[2],
        )
    }
}

/// The outcome of a break or place request.
#[derive(Debug, Clone, Copy, PartialEq)]
pub enum BlockInteraction {
    Miss,
    Break { hit: BlockHit, summary: BlockEditSummary },
    Place { hit: BlockHit, placed_block: BlockPos, block: BlockId, summary: BlockEditSummary },
    NoPlaceableBlockSelected,
    InvalidPlacementFace { hit: BlockHit },
}

/// `after` is `before` with `block` stored at `p` by a one-edit batch whose summary is
/// `summary`: the chunk of `p` is loaded (generated from `seed` if it was not), no other
/// block changes, and exactly when the block differed the summary counts one change,
/// the chunk of `p` advances its revision and gets the edit's dirty bits, and each loaded
/// neighbor across a face the block touches gets its facing subchunk marked dirty.
pub open spec fn single_edit(
    before: Map<ChunkCoord, ChunkView>,
    after: Map<ChunkCoord, ChunkView>,
    seed: u64,
    p: BlockPos,
    block: BlockId,
    summary: BlockEditSummary,
) -> bool {
    &&& world_block(after, p) == block
    &&& forall|c: ChunkCoord| #[trigger] after.contains_key(c) <==> (before.contains_key(c) || c == chunk_of(p))
    &&& forall|q: BlockPos|
        q != p && before.contains_key(chunk_of(q)) ==> #[trigger] world_block(after, q)
            == world_block(before, q)
    &&& summary.requested_edits == 1
    &&& summary.changed_blocks <= 1
    &&& before.contains_key(chunk_of(p)) ==> summary.changed_blocks == (if world_block(before, p)
        != block {
        1usize
    } else {
        0usize
    })
    &&& exists|base: ChunkView|
        #[trigger] edit_base(before, seed, chunk_of(p), base) && {
            let lx = p.x as int % 32;
            let ly = p.y as int % 32;
            let lz = p.z as int % 32;
            let changed = base.block(lx, ly, lz) != block;
            &&& summary.changed_blocks == (if changed {
                1usize
            } else {
                0usize
            })
            &&& !changed ==> after[chunk_of(p)] == base
            &&& changed ==> edited(base, after[chunk_of(p)], lx, ly, lz, block, own_marks(lx, ly, lz))
            &&& forall|c: ChunkCoord| #[trigger] before.contains_key(c) && c != chunk_of(p) ==> after[c]
                == (if changed {
                marked(before[c], neighbor_marks(chunk_of(p), lx, ly, lz, c))
            } else {
                before[c]
            })
        }
}

/// Applies the one-edit batch `[p <- block]` to the world.
fn apply_single_edit<T: TerrainSource>(world: &mut VoxelWorld<T>, p: BlockPos, block: BlockId) -> (summary: BlockEditSummary)
    requires
        old(world).wf(),
    ensures
        final(world).wf(),
        single_edit(old(world)@, final(world)@, old(world).seed_spec(), p, block, summary),
        final(world).seed_spec() == old(world).seed_spec(),
        final(world).terrain_spec() == old(world).terrain_spec(),
{
    let edits: Vec<BlockEdit> = vec![BlockEdit::new(p, block)];
    let ghost before = world@;
    let ghost seed = world.seed_spec();
    proof {
        world.lemma_view_wf();
    }
    let summary = world.set_blocks(edits.as_slice());
    proof {
        let e = edits@;
        assert(e[0].pos == p);
        let (bases, priors) = choose|bases: Map<ChunkCoord, ChunkView>, priors: Seq<BlockId>|
            #[trigger] batch_outcome(before, seed, e, bases, priors, world@) && summary.changed_blocks
                == count_changed(e, priors, e.len() as int);
        reveal(priors_consistent);
        reveal_with_fuel(count_changed, 2);
        assert(!edits_target(e, 0, p));
        assert(forall|k: int| 0 <= k < 1 ==> e[k].pos == p);
        assert(is_last_edit_single(e));
        let cc = chunk_of(p);
        assert(chunk_of(e[0].pos) == cc);
        assert(edits_touch_chunk(e, 1, cc));
        assert forall|c: ChunkCoord| #[trigger] world@.contains_key(c) <==> (before.contains_key(c)
            || c == chunk_of(p)) by {
            if world@.contains_key(c) && !before.contains_key(c) {
                let k = choose|k: int| 0 <= k < 1 && #[trigger] chunk_of(e[k].pos) == c;
                assert(k == 0);
            }
        }
        assert forall|q: BlockPos| q != p && before.contains_key(chunk_of(q)) implies #[trigger] world_block(
            world@,
            q,
        ) == world_block(before, q) by {
            if edits_target(e, 1, q) {
                let k = choose|k: int| 0 <= k < 1 && #[trigger] e[k].pos == q;
                assert(k == 0);
            }
        }
        let lx = p.x as int % 32;
        let ly = p.y as int % 32;
        let lz = p.z as int % 32;
        let base = bases[cc];
        assert(bases.contains_key(cc));
        assert(edit_base(before, seed, cc, base));
        assert(base.wf());
        assert(priors[0] == base.block(lx, ly, lz));
        let changed = base.block(lx, ly, lz) != block;
        assert(world@.contains_key(cc));
        let after = world@[cc];
        assert(batch_chunk(base, after, e, priors, 1, cc));
        reveal_with_fuel(batch_blocks, 2);
        reveal_with_fuel(batch_marks, 2);
        reveal_with_fuel(changes_in, 2);
        reveal_with_fuel(advanced_revision, 2);
        assert(after.blocks == base.blocks.update(local_index(lx, ly, lz), block));
        assert(changes_in(e, priors, 1, cc) == (if changed { 1nat } else { 0nat }));
        lemma_neighbor_marks_self(cc, lx, ly, lz);
        let own = own_marks(lx, ly, lz);
        lemma_zero_or(own);
        lemma_or_assoc(own, 0u8, 0u8);
        lemma_or_assoc(base.subchunk_dirty_mask, 0u8, 0u8);
        if changed {
            assert(change_marks(cc, lx, ly, lz, cc) == own);
            assert(batch_marks(e, priors, 1, cc) == own);
            assert(after.revision == next_revision(base.revision));
        } else {
            lemma_local_index(lx, ly, lz);
            assert(after.blocks =~= base.blocks);
            lemma_view_determined_by_blocks(after, base);
        }
        assert forall|c: ChunkCoord| #[trigger] before.contains_key(c) && c != chunk_of(p) implies world@[c]
            == (if changed {
            marked(before[c], neighbor_marks(cc, lx, ly, lz, c))
        } else {
            before[c]
        }) by {
            let v = before[c];
            assert(bases[c] == v);
            assert(world@.contains_key(c));
            assert(batch_chunk(v, world@[c], e, priors, 1, c));
            lemma_or_assoc(v.subchunk_dirty_mask, 0u8, 0u8);
            let nbr = neighbor_marks(cc, lx, ly, lz, c);
            lemma_zero_or(nbr);
            if changed {
                assert(change_marks(cc, lx, ly, lz, c) == nbr);
                assert(batch_marks(e, priors, 1, c) == nbr);
                lemma_view_determined_by_blocks(world@[c], marked(v, nbr));
            } else {
                lemma_view_determined_by_blocks(world@[c], v);
            }
        }
        assert(edit_base(before, seed, cc, base) && {
            &&& summary.changed_blocks == (if changed {
                1usize
            } else {
                0usize
            })
            &&& !changed ==> world@[cc] == base
            &&& changed ==> edited(base, world@[cc], lx, ly, lz, block, own)
            &&& forall|c: ChunkCoord| #[trigger] before.contains_key(c) && c != cc ==> world@[c] == (if changed {
                marked(before[c], neighbor_marks(cc, lx, ly, lz, c))
            } else {
                before[c]
            })
        });
    }
    summary
}

/// The only edit of a one-edit batch is its last.
spec fn is_last_edit_single(e: Seq<BlockEdit>) -> bool {
    crate::world::is_last_edit(e, 0, 1)
}

/// Breaks the block that a ray hit (`None`: the ray hit nothing): stores air there.
pub fn break_target_block<T: TerrainSource>(world: &mut VoxelWorld<T>, hit: Option<BlockHit>) -> (r: BlockInteraction)
    requires
        old(world).wf(),
    ensures
        final(world).wf(),
        final(world).seed_spec() == old(world).seed_spec(),
        final(world).terrain_spec() == old(world).terrain_spec(),
        hit is None ==> r == BlockInteraction::Miss && final(world)@ == old(world)@,
        hit matches Some(h) ==> (r matches BlockInteraction::Break { hit: rh, summary } && rh == h
            && single_edit(old(world)@, final(world)@, old(world).seed_spec(), h.world_block, AIR_BLOCK, summary)),
{
    match hit {
        None => BlockInteraction::Miss,
        Some(h) => {
            let summary = apply_single_edit(world, h.world_block, AIR_BLOCK);
            BlockInteraction::Break { hit: h, summary }
        },
    }
}

/// Places `block` against the face of the block that a ray hit (`None`: the ray hit
/// nothing). Air cannot be placed, and a hit without an entry face gives no place.
pub fn place_block_from_selection<T: TerrainSource>(
    world: &mut VoxelWorld<T>,
    block: BlockId,
    hit: Option<BlockHit>,
) -> (r: BlockInteraction)
    requires
        old(world).wf(),
        hit matches Some(h) ==> (block != AIR_BLOCK && !no_face(h) ==> placement_in_range(h)),
    ensures
        final(world).wf(),
        final(world).seed_spec() == old(world).seed_spec(),
        final(world).terrain_spec() == old(world).terrain_spec(),
        block == AIR_BLOCK ==> r == BlockInteraction::NoPlaceableBlockSelected,
        block != AIR_BLOCK && hit is None ==> r == BlockInteraction::Miss,
        hit matches Some(h) ==> (block != AIR_BLOCK && no_face(h) ==> r
            == (BlockInteraction::InvalidPlacementFace { hit: h })),
        !(r is Place) ==> final(world)@ == old(world)@,
        hit matches Some(h) ==> (block != AIR_BLOCK && !no_face(h) ==> (
        r matches BlockInteraction::Place { hit: rh, placed_block, block: rb, summary } && rh == h
            && placed_block == placement_of(h) && rb == block && single_edit(
            old(world)@,
            final(world)@,
            old(world).seed_spec(),
            placed_block,
            block,
            summary,
        ))),
{
    if block == AIR_BLOCK {
        return BlockInteraction::NoPlaceableBlockSelected;
    }
    let h = match hit {
        Some(h) => h,
        None => return BlockInteraction::Miss,
    };
    if h.face_normal[0] == 0 && h.face_normal[1] == 0 && h.face_normal[2] == 0 {
        return BlockInteraction::InvalidPlacementFace { hit: h };
    }
    let placed_block = h.placement_block();
    let summary = apply_single_edit(world, placed_block, block);
    BlockInteraction::Place { hit: h, placed_block, block, summary }
}

/// Places the hotbar's selected block against the face of the block that a ray hit.
pub fn place_selected_block<T: TerrainSource>(
    world: &mut VoxelWorld<T>,
    hotbar: &Hotbar,
    hit: Option<BlockHit>,
) -> (r: BlockInteraction)
    requires
        old(world).wf(),
        hit matches Some(h) ==> (hotbar@.slots[hotbar@.selected_slot as int] != AIR_BLOCK && !no_face(h)
            ==> placement_in_range(h)),
    ensures
        final(world).wf(),
        final(world).seed_spec() == old(world).seed_spec(),
        final(world).terrain_spec() == old(world).terrain_spec(),
        ({
            let block = hotbar@.slots[hotbar@.selected_slot as int];
            &&& block == AIR_BLOCK ==> r == BlockInteraction::NoPlaceableBlockSelected
            &&& block != AIR_BLOCK && hit is None ==> r == BlockInteraction::Miss
            &&& hit matches Some(h) ==> (block != AIR_BLOCK && no_face(h) ==> r
                == (BlockInteraction::InvalidPlacementFace { hit: h }))
            &&& !(r is Place) ==> final(world)@ == old(world)@
            &&& hit matches Some(h) ==> (block != AIR_BLOCK && !no_face(h) ==> (
            r matches BlockInteraction::Place { hit: rh, placed_block, block: rb, summary } && rh
                == h && placed_block == placement_of(h) && rb == block && single_edit(
                old(world)@,
                final(world)@,
                old(world).seed_spec(),
                placed_block,
                block,
                summary,
            )))
        }),
{
    place_block_from_selection(world, hotbar.selected_block(), hit)
}

} // verus!
