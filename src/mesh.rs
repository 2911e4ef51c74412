use vstd::prelude::*;
use crate::chunk::{cell_of, ChunkBlockData, CHUNK_AREA, CHUNK_SIZE, CHUNK_VOLUME};

verus! {

/// Corner coordinates of the template cube, three per corner, in half-voxel
/// units around the cube's centre.
pub open spec fn cube_corners() -> Seq<int> {
    seq![
        -1int, -1, -1,
        1, -1, -1,
        1, 1, -1,
        -1, 1, -1,
        -1, -1, 1,
        1, -1, 1,
        1, 1, 1,
        -1, 1, 1,
    ]
}

/// The twelve triangles of the template cube, as offsets into its corners.
pub open spec fn cube_template() -> Seq<int> {
    seq![
        0int, 1, 2, 2, 3, 0,
        4, 5, 6, 6, 7, 4,
        4, 0, 3, 3, 7, 4,
        1, 5, 6, 6, 2, 1,
        3, 2, 6, 6, 7, 3,
        0, 1, 5, 5, 4, 0,
    ]
}

/// The eight corners of the cube of cell `(x, y, z)`, in half-voxel units:
/// the template corner plus twice the cell's coordinates.
pub open spec fn cube_vertices(x: int, y: int, z: int) -> Seq<i32> {
    Seq::new(
        24,
        |i: int|
            (cube_corners()[i] + 2 * (if i % 3 == 0 {
                x
            } else if i % 3 == 1 {
                y
            } else {
                z
            })) as i32,
    )
}

/// The template triangles rebased onto the vertex numbered `base`.
pub open spec fn cube_indices(base: int) -> Seq<u32> {
    Seq::new(36, |i: int| (base + cube_template()[i]) as u32)
}

/// How many of the first `n` cells of `blocks` are solid.
pub open spec fn solid_count(blocks: Seq<u8>, n: int) -> int
    decreases n,
{
    if n <= 0 {
        0
    } else {
        solid_count(blocks, n - 1) + if blocks[n - 1] != 0 {
            1int
        } else {
            0int
        }
    }
}

/// Vertex coordinates of the cubes of the solid cells among the first `n`,
/// in traversal order.
pub open spec fn mesh_vertices(blocks: Seq<u8>, n: int) -> Seq<i32>
    decreases n,
{
    if n <= 0 {
        seq![]
    } else if blocks[n - 1] == 0 {
        mesh_vertices(blocks, n - 1)
    } else {
        let c = cell_of(n - 1);
        mesh_vertices(blocks, n - 1) + cube_vertices(c.0, c.1, c.2)
    }
}

/// Triangle indices of the cubes of the solid cells among the first `n`;
/// each cube's triangles refer to its own eight vertices.
pub open spec fn mesh_indices(blocks: Seq<u8>, n: int) -> Seq<u32>
    decreases n,
{
    if n <= 0 {
        seq![]
    } else if blocks[n - 1] == 0 {
        mesh_indices(blocks, n - 1)
    } else {
        mesh_indices(blocks, n - 1) + cube_indices(8 * solid_count(blocks, n - 1))
    }
}

/// Geometry of a chunk: vertex coordinates, three per vertex, in half-voxel
/// units relative to the chunk's origin, and triangle indices into them.
pub struct Mesh {
    pub vertices: Vec<i32>,
    pub indices: Vec<u32>,
}

/// The eight corners of the cube of the cell at `offset`.
pub fn unit_cube_vertices(offset: (usize, usize, usize)) -> (r: Vec<i32>)
    requires
        offset.0 < CHUNK_SIZE,
        offset.1 < CHUNK_SIZE,
        offset.2 < CHUNK_SIZE,
    ensures
        r@ == cube_vertices(offset.0 as int, offset.1 as int, offset.2 as int),
{
    let x = 2 * offset.0 as i32;
    let y = 2 * offset.1 as i32;
    let z = 2 * offset.2 as i32;
    let r = vec![
        x - 1, y - 1, z - 1,
        x + 1, y - 1, z - 1,
        x + 1, y + 1, z - 1,
        x - 1, y + 1, z - 1,
        x - 1, y - 1, z + 1,
        x + 1, y - 1, z + 1,
        x + 1, y + 1, z + 1,
        x - 1, y + 1, z + 1,
    ];
    assert(r@ =~= cube_vertices(offset.0 as int, offset.1 as int, offset.2 as int));
    r
}

/// The template triangles rebased onto the vertex numbered `base_index`.
pub fn unit_cube_indices(base_index: u32) -> (r: Vec<u32>)
    requires
        base_index <= u32::MAX - 7,
    ensures
        r@ == cube_indices(base_index as int),
{
    let b = base_index;
    let r = vec![
        b, b + 1, b + 2, b + 2, b + 3, b,
        b + 4, b + 5, b + 6, b + 6, b + 7, b + 4,
        b + 4, b, b + 3, b + 3, b + 7, b + 4,
        b + 1, b + 5, b + 6, b + 6, b + 2, b + 1,
        b + 3, b + 2, b + 6, b + 6, b + 7, b + 3,
        b, b + 1, b + 5, b + 5, b + 4, b,
    ];
    assert(r@ =~= cube_indices(base_index as int));
    r
}

/// One cube per solid cell, visited in traversal order, each with its own
/// eight vertices and twelve triangles.
pub fn generate_mesh(blocks: &ChunkBlockData) -> (r: Mesh)
    ensures
        r.vertices@ == mesh_vertices(blocks@, 4096),
        r.indices@ == mesh_indices(blocks@, 4096),
{
    let mut vertices: Vec<i32> = Vec::new();
    let mut indices: Vec<u32> = Vec::new();
    let mut solid: u32 = 0;
    let mut i: usize = 0;
    while i < CHUNK_VOLUME
        invariant
            i <= CHUNK_VOLUME,
            solid == solid_count(blocks@, i as int),
            solid <= i,
            vertices@ == mesh_vertices(blocks@, i as int),
            indices@ == mesh_indices(blocks@, i as int),
        decreases CHUNK_VOLUME - i,
    {
        if blocks[i] != 0 {
            let mut cube = unit_cube_vertices((i % CHUNK_SIZE, i / CHUNK_AREA, (i / CHUNK_SIZE) % CHUNK_SIZE));
            let mut cube_indices = unit_cube_indices(solid * 8);
            vertices.append(&mut cube);
            indices.append(&mut cube_indices);
            solid = solid + 1;
        }
        i = i + 1;
    }
    Mesh { vertices, indices }
}

} // verus!
