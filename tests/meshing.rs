use kardashev::chunk::{Chunk, HeightMap, CHUNK_AREA, CHUNK_VOLUME};
use kardashev::chunk_mesh_manager::{build_render_mesh, ChunkMeshManager};
use kardashev::events::{Event, EventHandler, EventType};
use kardashev::mesh::{generate_mesh, unit_cube_indices, unit_cube_vertices};

#[test]
fn cube_vertices_at_a_cell() {
    assert_eq!(
        unit_cube_vertices((0, 0, 0)),
        vec![-1, -1, -1, 1, -1, -1, 1, 1, -1, -1, 1, -1, -1, -1, 1, 1, -1, 1, 1, 1, 1, -1, 1, 1]
    );
    let v = unit_cube_vertices((3, 15, 7));
    assert_eq!(&v[0..3], &[5, 29, 13]);
    assert_eq!(&v[18..21], &[7, 31, 15]);
}

#[test]
fn cube_indices_are_rebased() {
    let r = unit_cube_indices(16);
    assert_eq!(r.len(), 36);
    assert_eq!(&r[0..6], &[16, 17, 18, 18, 19, 16]);
    assert_eq!(&r[30..36], &[16, 17, 21, 21, 20, 16]);
    assert_eq!(unit_cube_indices(0)[12..18], [4, 0, 3, 3, 7, 4]);
}

#[test]
fn empty_chunk_has_no_geometry() {
    let blocks = [0u8; CHUNK_VOLUME];
    let m = generate_mesh(&blocks);
    assert!(m.vertices.is_empty());
    assert!(m.indices.is_empty());
}

#[test]
fn one_cube_per_solid_cell_in_traversal_order() {
    let mut blocks = [0u8; CHUNK_VOLUME];
    blocks[1 + 16 * 2 + 256 * 3] = 5;
    blocks[0] = 1;
    let m = generate_mesh(&blocks);
    assert_eq!(m.vertices.len(), 48);
    assert_eq!(m.indices.len(), 72);
    assert_eq!(&m.vertices[0..3], &[-1, -1, -1]);
    assert_eq!(&m.vertices[24..27], &[1, 5, 3]);
    assert_eq!(m.indices[36], 8);
    assert_eq!(*m.indices.iter().max().unwrap(), 15);
}

#[test]
fn flat_chunk_mesh_size() {
    let m = generate_mesh(Chunk::new_flat().blocks());
    assert_eq!(m.vertices.len(), 256 * 24);
    assert_eq!(m.indices.len(), 256 * 36);
    assert_eq!(*m.indices.last().unwrap(), 255 * 8);
}

#[test]
fn render_mesh_origin_is_in_voxels() {
    let m = build_render_mesh((2, -1, 3), Chunk::new_flat().blocks());
    assert_eq!(m.origin, (32, -16, 48));
}

#[test]
fn cache_builds_once_and_drops_on_unload() {
    let mut cache = ChunkMeshManager::new();
    let flat = Chunk::new_flat();
    let mut heights: HeightMap = [0u8; CHUNK_AREA];
    heights[0] = 3;
    let other = Chunk::from_heights(&heights);
    cache.on_event(&Event::ChunkLoaded((1, 2, 3), *flat.blocks()));
    cache.on_event(&Event::ChunkLoaded((1, 2, 3), *other.blocks()));
    assert_eq!(cache.mesh_count(), 1);
    assert_eq!(cache.meshes()[0].mesh.vertices.len(), 256 * 24);
    assert!(cache.contains((1, 2, 3)));
    cache.on_event(&Event::ChunkUnloaded((9, 9, 9)));
    assert_eq!(cache.mesh_count(), 1);
    cache.on_event(&Event::ChunkUnloaded((1, 2, 3)));
    assert_eq!(cache.mesh_count(), 0);
    assert!(!cache.contains((1, 2, 3)));
}

#[test]
fn cache_subscribes_to_both_kinds() {
    let cache = ChunkMeshManager::new();
    assert_eq!(cache.event_types(), vec![EventType::ChunkLoaded, EventType::ChunkUnloaded]);
}
