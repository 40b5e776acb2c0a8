use vstd::prelude::*;

use crate::voxels::{
    BlockId, AIR_BLOCK, COAL_ORE_BLOCK, DIRT_BLOCK, GRASS_BLOCK, IRON_ORE_BLOCK, STONE_BLOCK,
};

verus! {

pub const BLOCK_TEXTURE_ATLAS_COLUMNS: usize = 5;
pub const BLOCK_TEXTURE_ATLAS_ROWS: usize = 2;
pub const CROSS_UV_COLUMNS: usize = 3;
pub const CROSS_UV_ROWS: usize = 4;

pub const DIRT_TEXTURE_INDEX: usize = 0;
pub const GRASS_TEXTURE_INDEX: usize = 1;
pub const STONE_TEXTURE_INDEX: usize = 2;
pub const COAL_ORE_TEXTURE_INDEX: usize = 3;
pub const IRON_ORE_TEXTURE_INDEX: usize = 4;

/// Atlas row of the hotbar icons.
pub const HOTBAR_TEXTURE_ROW: usize = 1;

/// Number of block types with a configuration entry.
pub const BLOCK_TYPE_COUNT: usize = 6;

/// A face of a block cube.
#[derive(Debug, Clone, Copy, PartialEq, Eq, Structural)]
pub enum CubeFace {
    PosX,
    NegX,
    PosY,
    NegY,
    PosZ,
    NegZ,
}

/// The tile `(column, row)` of the 3x4 cube-cross layout that holds a face.
pub open spec fn cross_tile_spec(face: CubeFace) -> (usize, usize) {
    match face {
        CubeFace::PosY => (1, 0),
        CubeFace::NegX => (0, 1),
        CubeFace::PosZ => (1, 1),
        CubeFace::PosX => (2, 1),
        CubeFace::NegY => (1, 2),
        CubeFace::NegZ => (1, 3),
    }
}

impl CubeFace {
    /// The tile `(column, row)` of the cube-cross texture layout that holds this face.
    pub fn cross_tile(self) -> (t: (usize, usize))
        ensures
            t == cross_tile_spec(self),
            t.0 < CROSS_UV_COLUMNS,
            t.1 < CROSS_UV_ROWS,
    {
        match self {
            CubeFace::PosY => (1, 0),
            CubeFace::NegX => (0, 1),
            CubeFace::PosZ => (1, 1),
            CubeFace::PosX => (2, 1),
            CubeFace::NegY => (1, 2),
            CubeFace::NegZ => (1, 3),
        }
    }
}

/// Whether `block` has an entry in the block table (air, dirt, grass, stone, coal
/// ore, iron ore); other ids use the debug properties of an unknown block.
pub open spec fn block_known(block: BlockId) -> bool {
    block < BLOCK_TYPE_COUNT
}

/// The label shown for a block.
pub open spec fn block_label_spec(block: BlockId) -> Seq<char> {
    if block == AIR_BLOCK {
        "EMPTY"@
    } else if block == DIRT_BLOCK {
        "DIRT"@
    } else if block == GRASS_BLOCK {
        "GRASS"@
    } else if block == STONE_BLOCK {
        "STONE"@
    } else if block == COAL_ORE_BLOCK {
        "COAL ORE"@
    } else if block == IRON_ORE_BLOCK {
        "IRON ORE"@
    } else {
        "UNKNOWN"@
    }
}

/// The atlas texture index of a block: the solid block types in table order; air and
/// unknown blocks have no texture.
pub open spec fn block_texture_index_spec(block: BlockId) -> Option<usize> {
    if 1 <= block < BLOCK_TYPE_COUNT {
        Some((block - 1) as usize)
    } else {
        None
    }
}

/// The integer properties of a block type.
#[derive(Debug, Clone, Copy)]
pub struct BlockInfo {
    pub id: BlockId,
    pub label: &'static str,
    pub texture_index: Option<usize>,
    pub is_opaque: bool,
}

/// The table entry of `block`, or the unknown entry (id `u16::MAX`, opaque, untextured).
pub fn block_info(block: BlockId) -> (info: BlockInfo)
    ensures
        info.label@ == block_label_spec(block),
        info.texture_index == block_texture_index_spec(block),
        info.is_opaque == (block != AIR_BLOCK),
        block_known(block) ==> info.id == block,
        !block_known(block) ==> info.id == u16::MAX,
{
    if block == AIR_BLOCK {
        BlockInfo { id: AIR_BLOCK, label: "EMPTY", texture_index: None, is_opaque: false }
    } else if block == DIRT_BLOCK {
        BlockInfo {
            id: DIRT_BLOCK,
            label: "DIRT",
            texture_index: Some(DIRT_TEXTURE_INDEX),
            is_opaque: true,
        }
    } else if block == GRASS_BLOCK {
        BlockInfo {
            id: GRASS_BLOCK,
            label: "GRASS",
            texture_index: Some(GRASS_TEXTURE_INDEX),
            is_opaque: true,
        }
    } else if block == STONE_BLOCK {
        BlockInfo {
            id: STONE_BLOCK,
            label: "STONE",
            texture_index: Some(STONE_TEXTURE_INDEX),
            is_opaque: true,
        }
    } else if block == COAL_ORE_BLOCK {
        BlockInfo {
            id: COAL_ORE_BLOCK,
            label: "COAL ORE",
            texture_index: Some(COAL_ORE_TEXTURE_INDEX),
            is_opaque: true,
        }
    } else if block == IRON_ORE_BLOCK {
        BlockInfo {
            id: IRON_ORE_BLOCK,
            label: "IRON ORE",
            texture_index: Some(IRON_ORE_TEXTURE_INDEX),
            is_opaque: true,
        }
    } else {
        BlockInfo { id: u16::MAX, label: "UNKNOWN", texture_index: None, is_opaque: true }
    }
}

/// The label of a block.
pub fn block_label(block: BlockId) -> (label: &'static str)
    ensures
        label@ == block_label_spec(block),
{
    block_info(block).label
}

/// Whether a block has a terrain texture.
pub fn block_has_texture(block: BlockId) -> (b: bool)
    ensures
        b == (block_texture_index_spec(block) is Some),
{
    block_info(block).texture_index.is_some()
}

/// Whether a block has a hotbar icon.
pub fn block_has_hotbar_texture(block: BlockId) -> (b: bool)
    ensures
        b == (block_texture_index_spec(block) is Some),
{
    block_info(block).texture_index.is_some()
}

/// Whether a block hides the faces behind it: every block but air.
pub fn block_is_opaque(block: BlockId) -> (b: bool)
    ensures
        b == (block != AIR_BLOCK),
{
    block_info(block).is_opaque
}

/// The atlas texture index of a block.
pub fn block_texture_index(block: BlockId) -> (i: Option<usize>)
    ensures
        i == block_texture_index_spec(block),
{
    block_info(block).texture_index
}

/// The atlas cell `(column, row)` of texture `index`, filled row by row.
pub fn atlas_cell_for_index(index: usize) -> (cell: (usize, usize))
    ensures
        cell.0 == index % BLOCK_TEXTURE_ATLAS_COLUMNS,
        cell.1 == index / BLOCK_TEXTURE_ATLAS_COLUMNS,
{
    (index % BLOCK_TEXTURE_ATLAS_COLUMNS, index / BLOCK_TEXTURE_ATLAS_COLUMNS)
}

/// The atlas cell of a block's hotbar icon: its texture column on the hotbar row.
pub fn hotbar_cell_for_index(index: usize) -> (cell: (usize, usize))
    ensures
        cell == (index, HOTBAR_TEXTURE_ROW),
{
    (index, HOTBAR_TEXTURE_ROW)
}

} // verus!
