use vstd::prelude::*;

verus! {

/// Side length of a chunk, in cells.
pub const CHUNK_SIZE: usize = 16;

/// Number of cells in one horizontal layer of a chunk.
pub const CHUNK_AREA: usize = 256;

/// Number of cells in a chunk.
pub const CHUNK_VOLUME: usize = 4096;

/// A chunk's location in chunk-grid space.
pub type ChunkPos = (i32, i32, i32);

/// Block identifiers of every cell, stored in traversal order:
/// cell `(x, y, z)` lives at `x + 16 * z + 256 * y`.
pub type ChunkBlockData = [u8; CHUNK_VOLUME];

/// Column heights of a chunk: column `(x, z)` lives at `x + 16 * z`.
pub type HeightMap = [u8; CHUNK_AREA];

/// Position in the block array of the cell `(x, y, z)`.
pub open spec fn cell_index(x: int, y: int, z: int) -> int {
    x + 16 * z + 256 * y
}

/// The cell `(x, y, z)` stored at position `i` of the block array.
pub open spec fn cell_of(i: int) -> (int, int, int) {
    (i % 16, i / 256, (i / 16) % 16)
}

pub open spec fn in_chunk(x: int, y: int, z: int) -> bool {
    0 <= x < 16 && 0 <= y < 16 && 0 <= z < 16
}

/// Cell indices and array positions correspond one to one.
pub proof fn lemma_cell_round_trip(x: int, y: int, z: int)
    requires
        in_chunk(x, y, z),
    ensures
        0 <= cell_index(x, y, z) < 4096,
        cell_of(cell_index(x, y, z)) == (x, y, z),
{
}

/// Whether two chunk positions are the same.
pub fn same_pos(a: ChunkPos, b: ChunkPos) -> (r: bool)
    ensures
        r == (a == b),
{
    a.0 == b.0 && a.1 == b.1 && a.2 == b.2
}

/// A fixed-size cube of block identifiers; 0 is air, anything else is solid.
#[derive(Clone, Copy)]
pub struct Chunk {
    pub blocks: ChunkBlockData,
}

impl Chunk {
    /// The block identifier of cell `(x, y, z)`.
    pub open spec fn block_at(&self, x: int, y: int, z: int) -> u8 {
        self.blocks@[cell_index(x, y, z)]
    }

    /// A chunk whose bottom layer is solid and whose other cells are air.
    pub fn new_flat() -> (r: Chunk)
        ensures
            forall|x: int, y: int, z: int|
                in_chunk(x, y, z) ==> #[trigger] r.block_at(x, y, z) == (if y == 0 {
                    1u8
                } else {
                    0u8
                }),
    {
        let mut blocks: ChunkBlockData = [0u8; CHUNK_VOLUME];
        let mut i: usize = 0;
        while i < CHUNK_AREA
            invariant
                i <= CHUNK_AREA,
                forall|j: int| 0 <= j < i ==> blocks@[j] == 1u8,
                forall|j: int| i <= j < 4096 ==> blocks@[j] == 0u8,
            decreases CHUNK_AREA - i,
        {
            blocks[i] = 1;
            i = i + 1;
        }
        let r = Chunk { blocks };
        assert forall|x: int, y: int, z: int| in_chunk(x, y, z) implies #[trigger] r.block_at(
            x,
            y,
            z,
        ) == (if y == 0 {
            1u8
        } else {
            0u8
        }) by {
            lemma_cell_round_trip(x, y, z);
        }
        r
    }

    /// Column `(x, z)` is solid from the bottom up to and including height
    /// `heights[x + 16 * z]`, and air above it.
    pub open spec fn fills(&self, heights: HeightMap) -> bool {
        forall|x: int, y: int, z: int|
            in_chunk(x, y, z) ==> #[trigger] self.block_at(x, y, z) == (if y <= heights@[x + 16
                * z] {
                1u8
            } else {
                0u8
            })
    }

    /// The chunk filled up to `heights`.
    pub fn from_heights(heights: &HeightMap) -> (r: Chunk)
        ensures
            r.fills(*heights),
    {
        let mut blocks: ChunkBlockData = [0u8; CHUNK_VOLUME];
        let mut i: usize = 0;
        while i < CHUNK_VOLUME
            invariant
                i <= CHUNK_VOLUME,
                forall|j: int|
                    0 <= j < i ==> #[trigger] blocks@[j] == (if cell_of(j).1 <= heights@[j % 256] {
                        1u8
                    } else {
                        0u8
                    }),
            decreases CHUNK_VOLUME - i,
        {
            let column = i % CHUNK_AREA;
            let y = i / CHUNK_AREA;
            blocks[i] = if y <= heights[column] as usize {
                1
            } else {
                0
            };
            i = i + 1;
        }
        let r = Chunk { blocks };
        assert forall|x: int, y: int, z: int| in_chunk(x, y, z) implies #[trigger] r.block_at(
            x,
            y,
            z,
        ) == (if y <= heights@[x + 16 * z] {
            1u8
        } else {
            0u8
        }) by {
            lemma_cell_round_trip(x, y, z);
            assert(cell_index(x, y, z) % 256 == x + 16 * z);
        }
        r
    }

    pub fn blocks(&self) -> (r: &ChunkBlockData)
        ensures
            *r == self.blocks,
    {
        &self.blocks
    }

    /// The block identifier of cell `(x, y, z)`.
    pub fn block(&self, x: usize, y: usize, z: usize) -> (r: u8)
        requires
            in_chunk(x as int, y as int, z as int),
        ensures
            r == self.block_at(x as int, y as int, z as int),
    {
        self.blocks[x + CHUNK_SIZE * z + CHUNK_AREA * y]
    }

    /// A cursor over every cell, starting at `(0, 0, 0)`.
    pub fn iter(&self) -> (r: ChunkIter<'_>)
        ensures
            r.wf(),
            r.index() == 0,
            r.source() == *self,
    {
        ChunkIter { chunk: self, x: 0, y: 0, z: 0 }
    }
}

/// Filling up to one height map gives one block array.
pub proof fn lemma_fill_is_determined(a: Chunk, b: Chunk, heights: HeightMap)
    requires
        a.fills(heights),
        b.fills(heights),
    ensures
        a.blocks@ == b.blocks@,
{
    assert forall|i: int| 0 <= i < 4096 implies a.blocks@[i] == b.blocks@[i] by {
        let (x, y, z) = cell_of(i);
        assert(cell_index(x, y, z) == i);
        assert(a.block_at(x, y, z) == b.block_at(x, y, z));
    }
    assert(a.blocks@ =~= b.blocks@);
}

/// Raising column heights never turns a solid cell into air.
pub proof fn lemma_fill_is_monotone(low: Chunk, high: Chunk, low_heights: HeightMap, high_heights: HeightMap)
    requires
        low.fills(low_heights),
        high.fills(high_heights),
        forall|i: int| 0 <= i < 256 ==> low_heights@[i] <= high_heights@[i],
    ensures
        forall|i: int| 0 <= i < 4096 && low.blocks@[i] != 0 ==> #[trigger] high.blocks@[i] != 0,
{
    assert forall|i: int| 0 <= i < 4096 && low.blocks@[i] != 0 implies #[trigger] high.blocks@[i] != 0 by {
        let (x, y, z) = cell_of(i);
        assert(cell_index(x, y, z) == i);
        assert(low.block_at(x, y, z) != 0);
        assert(low_heights@[x + 16 * z] <= high_heights@[x + 16 * z]);
        assert(high.block_at(x, y, z) != 0);
    }
}

/// Walks the cells of a chunk in traversal order: `x` varies fastest, then
/// `z`, with `y` varying slowest. Each step yields the cell's local indices
/// and its block identifier.
pub struct ChunkIter<'a> {
    chunk: &'a Chunk,
    x: usize,
    y: usize,
    z: usize,
}

impl<'a> ChunkIter<'a> {
    /// The chunk being walked.
    pub closed spec fn source(&self) -> Chunk {
        *self.chunk
    }

    pub closed spec fn wf(&self) -> bool {
        &&& self.x < 16
        &&& self.z < 16
        &&& self.y <= 16
        &&& self.y == 16 ==> self.x == 0 && self.z == 0
    }

    /// How many cells have been yielded so far; 4096 once the walk is over.
    pub closed spec fn index(&self) -> int {
        cell_index(self.x as int, self.y as int, self.z as int)
    }

    /// Yields the next cell, or `None` once all 4096 cells were yielded.
    pub fn next(&mut self) -> (r: Option<((usize, usize, usize), u8)>)
        requires
            old(self).wf(),
        ensures
            final(self).wf(),
            final(self).source() == old(self).source(),
            old(self).index() == 4096 ==> r is None && final(self).index() == 4096,
            old(self).index() < 4096 ==> {
                &&& final(self).index() == old(self).index() + 1
                &&& r == Some(
                    (
                        (
                            cell_of(old(self).index()).0 as usize,
                            cell_of(old(self).index()).1 as usize,
                            cell_of(old(self).index()).2 as usize,
                        ),
                        old(self).source().blocks@[old(self).index()],
                    ),
                )
            },
    {
        if self.y >= CHUNK_SIZE {
            return None;
        }
        proof {
            lemma_cell_round_trip(self.x as int, self.y as int, self.z as int);
        }
        let pos = (self.x, self.y, self.z);
        let value = self.chunk.blocks[self.x + CHUNK_SIZE * self.z + CHUNK_AREA * self.y];
        self.x = self.x + 1;
        if self.x >= CHUNK_SIZE {
            self.x = 0;
            self.z = self.z + 1;
            if self.z >= CHUNK_SIZE {
                self.z = 0;
                self.y = self.y + 1;
            }
        }
        Some((pos, value))
    }
}

} // verus!
