use vstd::prelude::*;

verus! {

/// Integer coordinate of a chunk in the infinite chunk grid.
#[derive(Clone, Copy, Debug, PartialEq, Eq, Structural, Hash)]
pub struct ChunkCoord {
    pub x: i32,
    pub y: i32,
    pub z: i32,
}

/// Integer coordinate of a single block in world space.
#[derive(Clone, Copy, Debug, PartialEq, Eq, Structural, Hash)]
pub struct BlockPos {
    pub x: i32,
    pub y: i32,
    pub z: i32,
}

impl ChunkCoord {
    pub fn new(x: i32, y: i32, z: i32) -> (c: ChunkCoord)
        ensures
            c == (ChunkCoord { x, y, z }),
    {
        ChunkCoord { x, y, z }
    }

    /// The coordinate moved by the given chunk offsets.
    pub fn offset(self, dx: i32, dy: i32, dz: i32) -> (c: ChunkCoord)
        requires
            i32::MIN <= self.x + dx <= i32::MAX,
            i32::MIN <= self.y + dy <= i32::MAX,
            i32::MIN <= self.z + dz <= i32::MAX,
        ensures
            c.x == self.x + dx,
            c.y == self.y + dy,
            c.z == self.z + dz,
    {
        ChunkCoord { x: self.x + dx, y: self.y + dy, z: self.z + dz }
    }
}

impl BlockPos {
    pub fn new(x: i32, y: i32, z: i32) -> (p: BlockPos)
        ensures
            p == (BlockPos { x, y, z }),
    {
        BlockPos { x, y, z }
    }
}

} // verus!
