//! A voxel world that streams fixed-size chunks around a moving viewpoint,
//! announces each load and unload through an event queue, and keeps a cache
//! of cube meshes in step with the loaded chunks.

pub mod chunk;
pub mod events;
pub mod mesh;
pub mod chunk_mesh_manager;
pub mod streaming;
pub mod world;
