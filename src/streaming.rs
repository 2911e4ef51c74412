use vstd::prelude::*;
use crate::chunk::{Chunk, ChunkPos};
use crate::chunk_mesh_manager::{apply_event, apply_events, meshes_chunk, ChunkMeshManager, RenderMesh};
use crate::events::{
    addressed, deliveries, kind_of, position_of, Event, EventQueue, EventType, ListenerId,
};
use crate::world::{announces, view_fits, view_set, World};

verus! {

/// Positions of the `ChunkLoaded` events among the first `n` of `emitted`.
pub open spec fn loads_in(emitted: Seq<Event>, n: int) -> Set<ChunkPos> {
    Set::new(
        |p: ChunkPos|
            exists|i: int|
                0 <= i < n && kind_of(emitted[i]) == EventType::ChunkLoaded && position_of(
                    #[trigger] emitted[i],
                ) == p,
    )
}

/// Positions of the `ChunkUnloaded` events among the first `n` of `emitted`.
pub open spec fn unloads_in(emitted: Seq<Event>, n: int) -> Set<ChunkPos> {
    Set::new(
        |p: ChunkPos|
            exists|i: int|
                0 <= i < n && kind_of(emitted[i]) == EventType::ChunkUnloaded && position_of(
                    #[trigger] emitted[i],
                ) == p,
    )
}

proof fn lemma_apply_prefix(
    before: Set<ChunkPos>,
    after: Set<ChunkPos>,
    emitted: Seq<Event>,
    n: int,
)
    requires
        announces(before, after, emitted),
        0 <= n <= emitted.len(),
    ensures
        apply_events(before, emitted.take(n)) == before.union(loads_in(emitted, n)).difference(
            unloads_in(emitted, n),
        ),
    decreases n,
{
    if n == 0 {
        assert(emitted.take(0).len() == 0);
        assert(before.union(loads_in(emitted, 0)).difference(unloads_in(emitted, 0)) =~= before);
    } else {
        lemma_apply_prefix(before, after, emitted, n - 1);
        let e = emitted[n - 1];
        assert(emitted.take(n).drop_last() =~= emitted.take(n - 1));
        assert(emitted.take(n).last() == e);
        let prev = before.union(loads_in(emitted, n - 1)).difference(unloads_in(emitted, n - 1));
        let next = before.union(loads_in(emitted, n)).difference(unloads_in(emitted, n));
        assert(apply_events(before, emitted.take(n)) == apply_event(prev, e));
        match e {
            Event::ChunkLoaded(p, _) => {
                assert forall|q: ChunkPos| #[trigger] next.contains(q) <==> prev.insert(p).contains(q) by {
                    if loads_in(emitted, n).contains(q) && q != p {
                        let i = choose|i: int|
                            0 <= i < n && kind_of(emitted[i]) == EventType::ChunkLoaded
                                && position_of(#[trigger] emitted[i]) == q;
                        assert(i != n - 1);
                    }
                    if loads_in(emitted, n - 1).contains(q) {
                        let i = choose|i: int|
                            0 <= i < n - 1 && kind_of(emitted[i]) == EventType::ChunkLoaded
                                && position_of(#[trigger] emitted[i]) == q;
                        assert(loads_in(emitted, n).contains(q));
                    }
                    if unloads_in(emitted, n).contains(q) {
                        let i = choose|i: int|
                            0 <= i < n && kind_of(emitted[i]) == EventType::ChunkUnloaded
                                && position_of(#[trigger] emitted[i]) == q;
                        assert(i != n - 1);
                        assert(unloads_in(emitted, n - 1).contains(q));
                        assert(q != p);
                    }
                    if unloads_in(emitted, n - 1).contains(q) {
                        let i = choose|i: int|
                            0 <= i < n - 1 && kind_of(emitted[i]) == EventType::ChunkUnloaded
                                && position_of(#[trigger] emitted[i]) == q;
                        assert(unloads_in(emitted, n).contains(q));
                    }
                    if q == p {
                        assert(loads_in(emitted, n).contains(q));
                    }
                }
                assert(next =~= prev.insert(p));
            },
            Event::ChunkUnloaded(p) => {
                assert forall|q: ChunkPos| #[trigger] next.contains(q) <==> prev.remove(p).contains(q) by {
                    if loads_in(emitted, n).contains(q) {
                        let i = choose|i: int|
                            0 <= i < n && kind_of(emitted[i]) == EventType::ChunkLoaded
                                && position_of(#[trigger] emitted[i]) == q;
                        assert(i != n - 1);
                        assert(loads_in(emitted, n - 1).contains(q));
                    }
                    if loads_in(emitted, n - 1).contains(q) {
                        let i = choose|i: int|
                            0 <= i < n - 1 && kind_of(emitted[i]) == EventType::ChunkLoaded
                                && position_of(#[trigger] emitted[i]) == q;
                        assert(loads_in(emitted, n).contains(q));
                    }
                    if unloads_in(emitted, n).contains(q) && q != p {
                        let i = choose|i: int|
                            0 <= i < n && kind_of(emitted[i]) == EventType::ChunkUnloaded
                                && position_of(#[trigger] emitted[i]) == q;
                        assert(i != n - 1);
                    }
                    if unloads_in(emitted, n - 1).contains(q) {
                        let i = choose|i: int|
                            0 <= i < n - 1 && kind_of(emitted[i]) == EventType::ChunkUnloaded
                                && position_of(#[trigger] emitted[i]) == q;
                        assert(unloads_in(emitted, n).contains(q));
                    }
                    if q == p {
                        assert(unloads_in(emitted, n).contains(q));
                    }
                }
                assert(next =~= prev.remove(p));
            },
        }
    }
}

/// Applying the events of an update, in order, to the set the update started
/// from gives the set it ended with: a mesh cache that matched the world
/// before an update matches it again once the update's events are handled.
pub proof fn lemma_cache_follows_world(
    before: Set<ChunkPos>,
    after: Set<ChunkPos>,
    emitted: Seq<Event>,
)
    requires
        announces(before, after, emitted),
    ensures
        apply_events(before, emitted) == after,
{
    let n = emitted.len() as int;
    lemma_apply_prefix(before, after, emitted, n);
    assert(emitted.take(n) =~= emitted);
    let r = before.union(loads_in(emitted, n)).difference(unloads_in(emitted, n));
    assert forall|p: ChunkPos| #[trigger] r.contains(p) <==> after.contains(p) by {
        if loads_in(emitted, n).contains(p) {
            let i = choose|i: int|
                0 <= i < n && kind_of(emitted[i]) == EventType::ChunkLoaded && position_of(
                    #[trigger] emitted[i],
                ) == p;
        }
        if unloads_in(emitted, n).contains(p) {
            let i = choose|i: int|
                0 <= i < n && kind_of(emitted[i]) == EventType::ChunkUnloaded && position_of(
                    #[trigger] emitted[i],
                ) == p;
        }
        if after.contains(p) && !before.contains(p) {
            let i = choose|i: int| 0 <= i < n && #[trigger] position_of(emitted[i]) == p;
            assert(kind_of(emitted[i]) == EventType::ChunkLoaded);
        }
        if before.contains(p) && !after.contains(p) {
            let i = choose|i: int| 0 <= i < n && #[trigger] position_of(emitted[i]) == p;
            assert(kind_of(emitted[i]) == EventType::ChunkUnloaded);
        }
        if before.contains(p) && after.contains(p) && unloads_in(emitted, n).contains(p) {
            let i = choose|i: int|
                0 <= i < n && kind_of(emitted[i]) == EventType::ChunkUnloaded && position_of(
                    #[trigger] emitted[i],
                ) == p;
        }
    }
    assert(r =~= after);
}

/// An update whose loaded set does not change announces nothing; in
/// particular a second update at an unchanged viewpoint emits no event.
pub proof fn lemma_repeat_update_is_silent(loaded: Set<ChunkPos>, emitted: Seq<Event>)
    requires
        announces(loaded, loaded, emitted),
    ensures
        emitted.len() == 0,
{
    if emitted.len() > 0 {
        let e = emitted[0];
        if kind_of(e) == EventType::ChunkLoaded {
            assert(loaded.contains(position_of(e)) && !loaded.contains(position_of(e)));
        } else {
            assert(loaded.contains(position_of(e)) && !loaded.contains(position_of(e)));
        }
    }
}

/// The events of `ds` addressed to `l`, in order.
pub open spec fn delivered_to(ds: Seq<(ListenerId, Event)>, l: ListenerId) -> Seq<Event>
    decreases ds.len(),
{
    if ds.len() == 0 {
        seq![]
    } else if ds.last().0 == l {
        delivered_to(ds.drop_last(), l).push(ds.last().1)
    } else {
        delivered_to(ds.drop_last(), l)
    }
}

proof fn lemma_delivered_to_add(a: Seq<(ListenerId, Event)>, b: Seq<(ListenerId, Event)>, l: ListenerId)
    ensures
        delivered_to(a + b, l) == delivered_to(a, l) + delivered_to(b, l),
    decreases b.len(),
{
    if b.len() == 0 {
        assert(a + b =~= a);
        assert(delivered_to(a, l) + delivered_to(b, l) =~= delivered_to(a, l));
    } else {
        lemma_delivered_to_add(a, b.drop_last(), l);
        assert((a + b).drop_last() =~= a + b.drop_last());
        assert((a + b).last() == b.last());
        if b.last().0 == l {
            assert(delivered_to(a, l) + delivered_to(b.drop_last(), l).push(b.last().1) =~= (
            delivered_to(a, l) + delivered_to(b.drop_last(), l)).push(b.last().1));
        }
    }
}

proof fn lemma_delivered_to_addressed(ls: Seq<ListenerId>, e: Event, l: ListenerId)
    requires
        ls.no_duplicates(),
    ensures
        delivered_to(addressed(ls, e), l) == (if ls.contains(l) {
            seq![e]
        } else {
            seq![]
        }),
    decreases ls.len(),
{
    let ds = addressed(ls, e);
    if ls.len() == 0 {
        assert(!ls.contains(l));
    } else {
        let rest = ls.drop_last();
        assert(rest.no_duplicates()) by {
            assert forall|a: int, b: int|
                0 <= a < rest.len() && 0 <= b < rest.len() && a != b implies rest[a] != rest[b] by {
                assert(rest[a] == ls[a] && rest[b] == ls[b]);
            }
        }
        lemma_delivered_to_addressed(rest, e, l);
        assert(ds.drop_last() =~= addressed(rest, e));
        assert(ds.last() == (ls.last(), e));
        if ls.last() == l {
            assert(!rest.contains(l)) by {
                if rest.contains(l) {
                    let j = choose|j: int| 0 <= j < rest.len() && rest[j] == l;
                    assert(ls[j] == ls[ls.len() - 1]);
                }
            }
            assert(ls.contains(l)) by {
                assert(ls[ls.len() - 1] == l);
            }
            assert(seq![].push(e) =~= seq![e]);
        } else {
            assert(ls.contains(l) == rest.contains(l)) by {
                if ls.contains(l) {
                    let j = choose|j: int| 0 <= j < ls.len() && ls[j] == l;
                    assert(rest[j] == l);
                }
                if rest.contains(l) {
                    let j = choose|j: int| 0 <= j < rest.len() && rest[j] == l;
                    assert(ls[j] == l);
                }
            }
        }
    }
}

/// A listener subscribed to every kind of event receives every pending
/// event exactly once, in push order, whatever else is subscribed.
pub proof fn lemma_listener_receives_all(
    events: Seq<Event>,
    loaded: Seq<ListenerId>,
    unloaded: Seq<ListenerId>,
    l: ListenerId,
)
    requires
        loaded.no_duplicates(),
        unloaded.no_duplicates(),
        loaded.contains(l),
        unloaded.contains(l),
    ensures
        delivered_to(deliveries(events, loaded, unloaded), l) == events,
    decreases events.len(),
{
    if events.len() > 0 {
        let e = events.last();
        let ls = if kind_of(e) == EventType::ChunkLoaded {
            loaded
        } else {
            unloaded
        };
        lemma_listener_receives_all(events.drop_last(), loaded, unloaded, l);
        lemma_delivered_to_add(deliveries(events.drop_last(), loaded, unloaded), addressed(ls, e), l);
        lemma_delivered_to_addressed(ls, e, l);
        assert(events.drop_last() + seq![e] =~= events);
    }
}

/// `entry` holds the mesh of the chunk that `world` holds at its position.
pub open spec fn mesh_matches(entry: (ChunkPos, RenderMesh), world: Seq<(ChunkPos, Chunk)>) -> bool {
    exists|j: int|
        0 <= j < world.len() && #[trigger] world[j].0 == entry.0 && meshes_chunk(
            entry.1,
            entry.0,
            world[j].1.blocks,
        )
}

/// Every mesh of `cache` is the mesh of the chunk `world` holds at its
/// position.
pub open spec fn meshes_match(cache: Seq<(ChunkPos, RenderMesh)>, world: Seq<(ChunkPos, Chunk)>) -> bool {
    forall|i: int| 0 <= i < cache.len() ==> mesh_matches(#[trigger] cache[i], world)
}

/// Identity under which the mesh cache listens.
pub const MESH_LISTENER: ListenerId = 1;

/// The world, its event queue and the mesh cache, stepped together once per
/// frame: the world updates, the queue dispatches, and the cache handles
/// the deliveries addressed to it.
pub struct Streamer {
    world: World,
    queue: EventQueue,
    meshes: ChunkMeshManager,
}

impl Streamer {
    pub closed spec fn world_state(&self) -> World {
        self.world
    }

    pub closed spec fn queue_state(&self) -> EventQueue {
        self.queue
    }

    pub closed spec fn mesh_state(&self) -> ChunkMeshManager {
        self.meshes
    }

    /// Between frames: no event is pending, the cache listens to both kinds,
    /// and it holds a mesh for exactly the loaded chunks, each built from the
    /// chunk loaded at its position.
    pub open spec fn wf(&self) -> bool {
        &&& self.world_state().wf()
        &&& self.queue_state().wf()
        &&& self.queue_state().pending() == Seq::<Event>::empty()
        &&& self.queue_state().listeners(EventType::ChunkLoaded).contains(MESH_LISTENER)
        &&& self.queue_state().listeners(EventType::ChunkUnloaded).contains(MESH_LISTENER)
        &&& self.mesh_state().keys() == self.world_state().loaded()
        &&& meshes_match(self.mesh_state().entries(), self.world_state().entries())
    }

    /// Nothing loaded yet; the cache is subscribed to both kinds.
    pub fn new(seed: u32, view_distance: u32) -> (r: Streamer)
        ensures
            r.wf(),
            r.world_state().spec_seed() == seed,
            r.world_state().distance() == view_distance,
            r.world_state().loaded() == Set::<ChunkPos>::empty(),
    {
        let world = World::with_settings(seed, view_distance);
        let mut queue = EventQueue::new();
        let kinds = vec![EventType::ChunkLoaded, EventType::ChunkUnloaded];
        proof {
            assert(kinds@[0] == EventType::ChunkLoaded);
            assert(kinds@[1] == EventType::ChunkUnloaded);
        }
        queue.register_handler(MESH_LISTENER, &kinds);
        proof {
            assert(queue.listeners(EventType::ChunkLoaded)[0] == MESH_LISTENER);
            assert(queue.listeners(EventType::ChunkUnloaded)[0] == MESH_LISTENER);
        }
        let meshes = ChunkMeshManager::new();
        let r = Streamer { world, queue, meshes };
        assert(r.world_state().loaded() =~= Set::<ChunkPos>::empty());
        assert(meshes_match(r.mesh_state().entries(), r.world_state().entries()));
        r
    }

    /// One frame at viewpoint chunk `center`: the world loads and unloads
    /// around it, and the cache follows.
    pub fn frame<G: Fn(u32, ChunkPos) -> Chunk>(&mut self, center: ChunkPos, generate: &G)
        requires
            old(self).wf(),
            view_fits(center, old(self).world_state().distance()),
            forall|s: u32, p: ChunkPos| generate.requires((s, p)),
        ensures
            final(self).wf(),
            final(self).world_state().spec_seed() == old(self).world_state().spec_seed(),
            final(self).world_state().distance() == old(self).world_state().distance(),
            final(self).world_state().loaded() == view_set(center, old(self).world_state().distance()),
            final(self).mesh_state().keys() == final(self).world_state().loaded(),
    {
        let ghost before = self.world.loaded();
        let ghost old_world = self.world.entries();
        let ghost old_cache = self.meshes.entries();
        self.world.update(center, generate, &mut self.queue);
        let ghost emitted = self.queue.pending();
        proof {
            assert(emitted.subrange(0, emitted.len() as int) =~= emitted);
            lemma_cache_follows_world(before, self.world.loaded(), emitted);
            lemma_listener_receives_all(
                emitted,
                self.queue.listeners(EventType::ChunkLoaded),
                self.queue.listeners(EventType::ChunkUnloaded),
                MESH_LISTENER,
            );
        }
        let ds = self.queue.dispatch_events();
        let ghost world_after = self.world;
        let ghost queue_after = self.queue;
        let ghost fin_world = world_after.entries();
        proof {
            assert forall|c: int|
                0 <= c < old_cache.len() && world_after.loaded().contains(old_cache[c].0) implies mesh_matches(
                #[trigger] old_cache[c],
                fin_world,
            ) by {
                assert(mesh_matches(old_cache[c], old_world));
                let j = choose|j: int|
                    0 <= j < old_world.len() && #[trigger] old_world[j].0 == old_cache[c].0
                        && meshes_chunk(old_cache[c].1, old_cache[c].0, old_world[j].1.blocks);
                assert(fin_world.contains(old_world[j]));
                let m = choose|m: int| 0 <= m < fin_world.len() && fin_world[m] == old_world[j];
                assert(fin_world[m].0 == old_cache[c].0);
            }
        }
        let mut i: usize = 0;
        while i < ds.len()
            invariant
                i <= ds.len(),
                self.world == world_after,
                self.queue == queue_after,
                fin_world == world_after.entries(),
                delivered_to(ds@, MESH_LISTENER) == emitted,
                forall|k: int|
                    0 <= k < emitted.len() ==> (#[trigger] emitted[k] matches Event::ChunkLoaded(p, b)
                        ==> fin_world.contains((p, Chunk { blocks: b }))),
                self.meshes.keys() == apply_events(before, delivered_to(ds@.take(i as int), MESH_LISTENER)),
                forall|c: int|
                    0 <= c < self.meshes.entries().len() && world_after.loaded().contains(
                        self.meshes.entries()[c].0,
                    ) ==> mesh_matches(#[trigger] self.meshes.entries()[c], fin_world),
            decreases ds.len() - i,
        {
            let (listener, event) = ds[i];
            let ghost done = delivered_to(ds@.take(i as int), MESH_LISTENER);
            let ghost cache_before = self.meshes.entries();
            proof {
                assert(ds@.take(i + 1).drop_last() =~= ds@.take(i as int));
                assert(ds@.take(i + 1).last() == ds@[i as int]);
            }
            if listener == MESH_LISTENER {
                proof {
                    let n = i + 1;
                    lemma_delivered_to_add(ds@.take(n), ds@.subrange(n, ds.len() as int), MESH_LISTENER);
                    assert(ds@.take(n) + ds@.subrange(n, ds.len() as int) =~= ds@);
                    let now = delivered_to(ds@.take(n), MESH_LISTENER);
                    assert(now == done.push(event));
                    assert(emitted[done.len() as int] == now[done.len() as int]);
                }
                self.meshes.handle_event(&event);
                proof {
                    assert(done.push(event).drop_last() =~= done);
                    let k = done.len() as int;
                    assert(emitted[k] == event);
                    assert forall|c: int|
                        0 <= c < self.meshes.entries().len() && world_after.loaded().contains(
                            self.meshes.entries()[c].0,
                        ) implies mesh_matches(#[trigger] self.meshes.entries()[c], fin_world) by {
                        let e = self.meshes.entries()[c];
                        match event {
                            Event::ChunkLoaded(p, b) => {
                                if c < cache_before.len() {
                                    assert(e == cache_before[c]);
                                } else {
                                    assert(fin_world.contains((p, Chunk { blocks: b })));
                                    let j = choose|j: int| 0 <= j < fin_world.len() && fin_world[j] == (p, Chunk { blocks: b });
                                    assert(fin_world[j].0 == e.0);
                                }
                            },
                            Event::ChunkUnloaded(p) => {
                                assert(cache_before.contains(e));
                                let c0 = choose|c0: int| 0 <= c0 < cache_before.len() && cache_before[c0] == e;
                                assert(mesh_matches(cache_before[c0], fin_world));
                            },
                        }
                    }
                }
            }
            i = i + 1;
        }
        proof {
            assert(ds@.take(i as int) =~= ds@);
            assert forall|c: int| 0 <= c < self.meshes.entries().len() implies mesh_matches(
                #[trigger] self.meshes.entries()[c],
                self.world.entries(),
            ) by {
                assert(self.meshes.keys().contains(self.meshes.entries()[c].0));
            }
        }
    }

    pub fn world(&self) -> (r: &World)
        ensures
            *r == self.world_state(),
    {
        &self.world
    }

    pub fn meshes(&self) -> (r: &ChunkMeshManager)
        ensures
            *r == self.mesh_state(),
    {
        &self.meshes
    }
}

} // verus!
