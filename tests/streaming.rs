use kardashev::chunk::{Chunk, ChunkPos, HeightMap, CHUNK_AREA, CHUNK_SIZE};
use kardashev::events::{Event, EventQueue, EventType};
use kardashev::streaming::Streamer;
use kardashev::world::{chunk_range, World};
use noise::{NoiseFn, Perlin};

fn terrain(seed: u32, pos: ChunkPos) -> Chunk {
    let perlin = Perlin::new(seed);
    let mut heights: HeightMap = [0u8; CHUNK_AREA];
    for x in 0..CHUNK_SIZE {
        for z in 0..CHUNK_SIZE {
            let nx = (pos.0 * CHUNK_SIZE as i32 + x as i32) as f64 * 0.05;
            let nz = (pos.2 * CHUNK_SIZE as i32 + z as i32) as f64 * 0.04;
            let h = (perlin.get([nx, nz]) + 1.0) * 0.5 * CHUNK_SIZE as f64 * 0.5;
            heights[x + CHUNK_SIZE * z] = h as u8;
        }
    }
    Chunk::from_heights(&heights)
}

fn counts(events: &[Event]) -> (usize, usize) {
    let loads = events.iter().filter(|e| e.event_type() == EventType::ChunkLoaded).count();
    (loads, events.len() - loads)
}

fn positions_of(events: &[Event], kind: EventType) -> Vec<ChunkPos> {
    let mut v: Vec<ChunkPos> = events
        .iter()
        .filter(|e| e.event_type() == kind)
        .map(|e| e.position())
        .collect();
    v.sort();
    v
}

#[test]
fn scenario_a_first_update_loads_the_cube() {
    let mut world = World::with_settings(24601, 1);
    let mut queue = EventQueue::new();
    world.update((0, 0, 0), &terrain, &mut queue);
    assert_eq!(world.chunk_count(), 27);
    for x in -1..=1 {
        for y in -1..=1 {
            for z in -1..=1 {
                assert!(world.is_loaded((x, y, z)));
            }
        }
    }
    assert_eq!(counts(queue.pending_events()), (27, 0));
}

#[test]
fn scenario_b_moving_one_chunk_along_x() {
    let mut world = World::with_settings(24601, 1);
    let mut queue = EventQueue::new();
    world.update((0, 0, 0), &terrain, &mut queue);
    queue.dispatch_events();
    world.update((1, 0, 0), &terrain, &mut queue);
    let events = queue.pending_events();
    assert_eq!(counts(events), (9, 9));
    let mut expected_unloaded = Vec::new();
    let mut expected_loaded = Vec::new();
    for y in -1..=1 {
        for z in -1..=1 {
            expected_unloaded.push((-1, y, z));
            expected_loaded.push((2, y, z));
        }
    }
    assert_eq!(positions_of(events, EventType::ChunkUnloaded), expected_unloaded);
    assert_eq!(positions_of(events, EventType::ChunkLoaded), expected_loaded);
    for e in events {
        assert!(e.position().0 != 0 && e.position().0 != 1);
    }
    assert_eq!(world.chunk_count(), 27);
}

#[test]
fn boundary_of_view_distance_one() {
    let mut world = World::with_settings(24601, 1);
    let mut queue = EventQueue::new();
    world.update((0, 0, 0), &terrain, &mut queue);
    assert!(world.is_loaded((1, 0, 0)));
    assert!(world.is_loaded((-1, 1, -1)));
    assert!(!world.is_loaded((2, 0, 0)));
    assert!(!world.is_loaded((0, -2, 1)));
}

#[test]
fn second_update_at_same_place_is_silent() {
    let mut world = World::with_settings(7, 2);
    let mut queue = EventQueue::new();
    world.update((3, -4, 5), &terrain, &mut queue);
    assert_eq!(queue.pending_count(), 125);
    queue.dispatch_events();
    let before = world.loaded_positions();
    world.update((3, -4, 5), &terrain, &mut queue);
    assert_eq!(queue.pending_count(), 0);
    assert_eq!(world.loaded_positions(), before);
    assert_eq!(world.chunk_count(), 125);
}

#[test]
fn containment_after_a_long_jump() {
    let mut world = World::with_settings(1, 1);
    let mut queue = EventQueue::new();
    world.update((0, 0, 0), &terrain, &mut queue);
    world.update((10, 10, 10), &terrain, &mut queue);
    let mut loaded = world.loaded_positions();
    loaded.sort();
    assert_eq!(loaded, chunk_range((10, 10, 10), 1));
    assert_eq!(counts(queue.pending_events()), (54, 27));
}

#[test]
fn view_distance_zero_keeps_one_chunk() {
    let mut world = World::with_settings(1, 0);
    let mut queue = EventQueue::new();
    world.update((5, 5, 5), &terrain, &mut queue);
    assert_eq!(world.loaded_positions(), vec![(5, 5, 5)]);
    world.update((5, 5, 6), &terrain, &mut queue);
    assert_eq!(world.loaded_positions(), vec![(5, 5, 6)]);
    assert_eq!(counts(queue.pending_events()), (2, 1));
}

#[test]
fn loaded_event_carries_the_stored_blocks() {
    let mut world = World::with_settings(24601, 1);
    let mut queue = EventQueue::new();
    world.update((0, 0, 0), &terrain, &mut queue);
    for e in queue.pending_events() {
        match e {
            Event::ChunkLoaded(p, blocks) => {
                assert!(world.chunk(*p).unwrap().blocks() == blocks);
            }
            Event::ChunkUnloaded(_) => panic!("nothing was loaded before"),
        }
    }
}

#[test]
fn kept_chunks_are_not_regenerated() {
    let mut world = World::with_settings(3, 1);
    let mut queue = EventQueue::new();
    world.update((0, 0, 0), &|_s: u32, _p: ChunkPos| Chunk::new_flat(), &mut queue);
    world.update((1, 0, 0), &terrain, &mut queue);
    let flat = Chunk::new_flat();
    assert!(world.chunk((0, 0, 0)).unwrap().blocks() == flat.blocks());
    assert!(world.chunk((2, 0, 0)).unwrap().blocks() == terrain(3, (2, 0, 0)).blocks());
}

#[test]
fn generation_is_deterministic() {
    let a = terrain(24601, (3, -2, 7));
    let b = terrain(24601, (3, -2, 7));
    assert!(a.blocks() == b.blocks());
    let mut w1 = World::with_settings(24601, 1);
    let mut w2 = World::with_settings(24601, 1);
    let mut q1 = EventQueue::new();
    let mut q2 = EventQueue::new();
    w1.update((4, 0, -3), &terrain, &mut q1);
    w2.update((4, 0, -3), &terrain, &mut q2);
    for p in w1.loaded_positions() {
        assert!(w1.chunk(p).unwrap().blocks() == w2.chunk(p).unwrap().blocks());
    }
}

#[test]
fn default_world_settings() {
    let world = World::new();
    assert_eq!(world.seed(), 24601);
    assert_eq!(world.view_distance(), 3);
    assert_eq!(world.chunk_count(), 0);
}

#[test]
fn mesh_cache_matches_world_after_each_frame() {
    let mut streamer = Streamer::new(24601, 1);
    let path: [ChunkPos; 5] = [(0, 0, 0), (0, 0, 0), (1, 0, 0), (3, 1, -1), (3, 1, -2)];
    for center in path {
        streamer.frame(center, &terrain);
        let mut loaded = streamer.world().loaded_positions();
        loaded.sort();
        let mut cached: Vec<ChunkPos> = streamer.meshes().iter().iter().map(|e| e.0).collect();
        cached.sort();
        assert_eq!(loaded, cached);
        assert_eq!(loaded, chunk_range(center, 1));
    }
}
