use vstd::prelude::*;
use crate::chunk::{same_pos, ChunkBlockData, ChunkPos, CHUNK_SIZE};
use crate::events::{Event, EventHandler, EventType};
use crate::mesh::{generate_mesh, mesh_indices, mesh_vertices, Mesh};
use crate::world::{keys_of, unique_keys};

verus! {

/// The translation of chunk `pos`, in voxels: its coordinates times the
/// chunk side length.
pub open spec fn origin_of(pos: ChunkPos) -> (int, int, int) {
    (pos.0 * 16, pos.1 * 16, pos.2 * 16)
}

/// The loaded set after `event`: a load adds its position, an unload
/// removes it.
pub open spec fn apply_event(keys: Set<ChunkPos>, event: Event) -> Set<ChunkPos> {
    match event {
        Event::ChunkLoaded(p, _) => keys.insert(p),
        Event::ChunkUnloaded(p) => keys.remove(p),
    }
}

/// The loaded set after each of `events` in turn.
pub open spec fn apply_events(keys: Set<ChunkPos>, events: Seq<Event>) -> Set<ChunkPos>
    decreases events.len(),
{
    if events.len() == 0 {
        keys
    } else {
        apply_event(apply_events(keys, events.drop_last()), events.last())
    }
}

/// The geometry of one chunk, placed at the chunk's origin.
pub struct RenderMesh {
    pub mesh: Mesh,
    /// Translation in voxels.
    pub origin: (i64, i64, i64),
}

/// Whether `m` is the mesh of a chunk at `pos` holding `blocks`.
pub open spec fn meshes_chunk(m: RenderMesh, pos: ChunkPos, blocks: ChunkBlockData) -> bool {
    &&& m.mesh.vertices@ == mesh_vertices(blocks@, 4096)
    &&& m.mesh.indices@ == mesh_indices(blocks@, 4096)
    &&& (m.origin.0 as int, m.origin.1 as int, m.origin.2 as int) == origin_of(pos)
}

/// The mesh of a chunk at `pos` holding `blocks`.
pub fn build_render_mesh(pos: ChunkPos, blocks: &ChunkBlockData) -> (r: RenderMesh)
    ensures
        meshes_chunk(r, pos, *blocks),
{
    let side = CHUNK_SIZE as i64;
    assert(side == 16);
    RenderMesh {
        mesh: generate_mesh(blocks),
        origin: (pos.0 as i64 * side, pos.1 as i64 * side, pos.2 as i64 * side),
    }
}

/// Renderable geometry for each loaded chunk, keyed by chunk position.
pub struct ChunkMeshManager {
    meshes: Vec<(ChunkPos, RenderMesh)>,
}

impl ChunkMeshManager {
    pub closed spec fn entries(&self) -> Seq<(ChunkPos, RenderMesh)> {
        self.meshes@
    }

    /// The positions that have a mesh.
    pub open spec fn keys(&self) -> Set<ChunkPos> {
        keys_of(self.entries())
    }

    /// No position has two meshes.
    #[verifier::type_invariant]
    pub closed spec fn wf(&self) -> bool {
        unique_keys(self.meshes@)
    }

    pub fn new() -> (r: ChunkMeshManager)
        ensures
            r.entries() == Seq::<(ChunkPos, RenderMesh)>::empty(),
            r.keys() == Set::<ChunkPos>::empty(),
    {
        let r = ChunkMeshManager { meshes: Vec::new() };
        assert(r.keys() =~= Set::<ChunkPos>::empty());
        r
    }

    /// Where the mesh for `pos` is kept, if there is one.
    fn find(&self, pos: ChunkPos) -> (r: Option<usize>)
        ensures
            r matches Some(i) ==> i < self.entries().len() && self.entries()[i as int].0 == pos,
            r is None <==> !self.keys().contains(pos),
    {
        let mut i: usize = 0;
        while i < self.meshes.len()
            invariant
                i <= self.meshes.len(),
                forall|k: int| 0 <= k < i ==> self.meshes@[k].0 != pos,
            decreases self.meshes.len() - i,
        {
            if same_pos(self.meshes[i].0, pos) {
                return Some(i);
            }
            i = i + 1;
        }
        None
    }

    pub fn contains(&self, pos: ChunkPos) -> (r: bool)
        ensures
            r == self.keys().contains(pos),
    {
        self.find(pos).is_some()
    }

    /// Builds and keeps the mesh for `pos` unless one is kept already, in
    /// which case nothing changes.
    pub fn get_or_create(&mut self, pos: ChunkPos, blocks: &ChunkBlockData)
        ensures
            final(self).keys() == old(self).keys().insert(pos),
            old(self).keys().contains(pos) ==> final(self).entries() == old(self).entries(),
            !old(self).keys().contains(pos) ==> {
                &&& final(self).entries().len() == old(self).entries().len() + 1
                &&& final(self).entries().drop_last() == old(self).entries()
                &&& final(self).entries().last().0 == pos
                &&& meshes_chunk(final(self).entries().last().1, pos, *blocks)
            },
    {
        proof {
            use_type_invariant(&*self);
        }
        if self.find(pos).is_none() {
            let ghost before = self.meshes@;
            let mesh = build_render_mesh(pos, blocks);
            proof {
                let grown = before.push((pos, mesh));
                assert forall|a: int, b: int| 0 <= a < b < grown.len() implies grown[a].0
                    != grown[b].0 by {
                    if b == before.len() {
                        assert(keys_of(before).contains(before[a].0));
                    } else {
                        assert(grown[a] == before[a] && grown[b] == before[b]);
                    }
                }
            }
            let mut meshes: Vec<(ChunkPos, RenderMesh)> = Vec::new();
            std::mem::swap(&mut self.meshes, &mut meshes);
            meshes.push((pos, mesh));
            std::mem::swap(&mut self.meshes, &mut meshes);
            proof {
                assert(self.meshes@.drop_last() =~= before);
                assert forall|p: ChunkPos| #[trigger] keys_of(self.meshes@).contains(p) <==> keys_of(
                    before,
                ).insert(pos).contains(p) by {
                    if keys_of(self.meshes@).contains(p) {
                        let k = choose|k: int| 0 <= k < self.meshes@.len() && self.meshes@[k].0 == p;
                        if k < before.len() {
                            assert(before[k].0 == p);
                        }
                    }
                    if keys_of(before).contains(p) {
                        let k = choose|k: int| 0 <= k < before.len() && before[k].0 == p;
                        assert(self.meshes@[k].0 == p);
                    }
                    if p == pos {
                        assert(self.meshes@[before.len() as int].0 == p);
                    }
                }
                assert(self.keys() =~= keys_of(before).insert(pos));
            }
        } else {
            assert(self.keys() =~= self.keys().insert(pos));
        }
    }

    /// Drops the mesh for `pos`, if there is one.
    pub fn remove(&mut self, pos: ChunkPos)
        ensures
            final(self).keys() == old(self).keys().remove(pos),
            forall|k: int|
                0 <= k < old(self).entries().len() && (#[trigger] old(self).entries()[k]).0 != pos
                    ==> final(self).entries().contains(old(self).entries()[k]),
            forall|k: int|
                0 <= k < final(self).entries().len() ==> old(self).entries().contains(
                    #[trigger] final(self).entries()[k],
                ),
            !old(self).keys().contains(pos) ==> final(self).entries() == old(self).entries(),
    {
        proof {
            use_type_invariant(&*self);
        }
        match self.find(pos) {
            Some(i) => {
                let ghost before = self.meshes@;
                proof {
                    let after = before.remove(i as int);
                    assert forall|a: int, b: int| 0 <= a < b < after.len() implies after[a].0
                        != after[b].0 by {
                        let a0 = if a < i { a } else { a + 1 };
                        let b0 = if b < i { b } else { b + 1 };
                        assert(after[a] == before[a0] && after[b] == before[b0]);
                    }
                }
                let mut meshes: Vec<(ChunkPos, RenderMesh)> = Vec::new();
                std::mem::swap(&mut self.meshes, &mut meshes);
                meshes.remove(i);
                std::mem::swap(&mut self.meshes, &mut meshes);
                proof {
                    let after = self.meshes@;
                    assert(after =~= before.remove(i as int));
                    assert forall|p: ChunkPos| #[trigger] keys_of(after).contains(p) <==> keys_of(
                        before,
                    ).remove(pos).contains(p) by {
                        if keys_of(after).contains(p) {
                            let k = choose|k: int| 0 <= k < after.len() && after[k].0 == p;
                            let k0 = if k < i { k } else { k + 1 };
                            assert(after[k] == before[k0]);
                            assert(k0 != i as int);
                        }
                        if keys_of(before).contains(p) && p != pos {
                            let k = choose|k: int| 0 <= k < before.len() && before[k].0 == p;
                            if k < i {
                                assert(after[k] == before[k]);
                            } else {
                                assert(after[k - 1] == before[k]);
                            }
                        }
                    }
                    assert(self.keys() =~= keys_of(before).remove(pos));
                    assert forall|k: int| 0 <= k < after.len() implies before.contains(
                        #[trigger] after[k],
                    ) by {
                        let k0 = if k < i { k } else { k + 1 };
                        assert(after[k] == before[k0]);
                    }
                    assert forall|k: int|
                        0 <= k < before.len() && (#[trigger] before[k]).0 != pos implies after.contains(
                        before[k],
                    ) by {
                        if k < i {
                            assert(after[k] == before[k]);
                        } else {
                            assert(after[k - 1] == before[k]);
                        }
                    }
                }
            },
            None => {
                assert(self.keys() =~= self.keys().remove(pos));
            },
        }
    }

    /// Builds the mesh of a loaded chunk and drops the mesh of an unloaded
    /// one.
    pub fn handle_event(&mut self, event: &Event)
        ensures
            final(self).keys() == apply_event(old(self).keys(), *event),
            *event matches Event::ChunkLoaded(p, b) ==> {
                &&& old(self).keys().contains(p) ==> final(self).entries() == old(self).entries()
                &&& !old(self).keys().contains(p) ==> final(self).entries() == old(self).entries().push(
                    final(self).entries().last(),
                ) && final(self).entries().last().0 == p && meshes_chunk(
                    final(self).entries().last().1,
                    p,
                    b,
                )
            },
            *event matches Event::ChunkUnloaded(p) ==> forall|k: int|
                0 <= k < old(self).entries().len() && (#[trigger] old(self).entries()[k]).0 != p
                    ==> final(self).entries().contains(old(self).entries()[k]),
            *event matches Event::ChunkUnloaded(p) ==> forall|k: int|
                0 <= k < final(self).entries().len() ==> old(self).entries().contains(
                    #[trigger] final(self).entries()[k],
                ),
            *event matches Event::ChunkUnloaded(p) && !old(self).keys().contains(p)
                ==> final(self).entries() == old(self).entries(),
    {
        match event {
            Event::ChunkLoaded(pos, blocks) => {
                self.get_or_create(*pos, blocks);
                proof {
                    if !old(self).keys().contains(*pos) {
                        assert(self.entries() =~= old(self).entries().push(self.entries().last()));
                    }
                }
            },
            Event::ChunkUnloaded(pos) => self.remove(*pos),
        }
    }

    /// The kept meshes with their chunk positions.
    pub fn iter(&self) -> (r: &Vec<(ChunkPos, RenderMesh)>)
        ensures
            r@ == self.entries(),
    {
        &self.meshes
    }

    /// The kept meshes.
    pub fn meshes(&self) -> (r: Vec<&RenderMesh>)
        ensures
            r.len() == self.entries().len(),
            forall|i: int| 0 <= i < r.len() ==> *r@[i] == self.entries()[i].1,
    {
        let mut r: Vec<&RenderMesh> = Vec::new();
        let mut i: usize = 0;
        while i < self.meshes.len()
            invariant
                i <= self.meshes.len(),
                r.len() == i,
                forall|k: int| 0 <= k < i ==> *r@[k] == self.meshes@[k].1,
            decreases self.meshes.len() - i,
        {
            r.push(&self.meshes[i].1);
            i = i + 1;
        }
        r
    }

    pub fn mesh_count(&self) -> (r: usize)
        ensures
            r == self.entries().len(),
    {
        self.meshes.len()
    }
}

impl EventHandler for ChunkMeshManager {
    /// Same as `handle_event`.
    fn on_event(&mut self, event: &Event)
        ensures
            final(self).keys() == apply_event(old(self).keys(), *event),
            *event matches Event::ChunkLoaded(p, b) ==> {
                &&& old(self).keys().contains(p) ==> final(self).entries() == old(self).entries()
                &&& !old(self).keys().contains(p) ==> final(self).entries() == old(self).entries().push(
                    final(self).entries().last(),
                ) && final(self).entries().last().0 == p && meshes_chunk(
                    final(self).entries().last().1,
                    p,
                    b,
                )
            },
            *event matches Event::ChunkUnloaded(p) ==> forall|k: int|
                0 <= k < old(self).entries().len() && (#[trigger] old(self).entries()[k]).0 != p
                    ==> final(self).entries().contains(old(self).entries()[k]),
            *event matches Event::ChunkUnloaded(p) ==> forall|k: int|
                0 <= k < final(self).entries().len() ==> old(self).entries().contains(
                    #[trigger] final(self).entries()[k],
                ),
            *event matches Event::ChunkUnloaded(p) && !old(self).keys().contains(p)
                ==> final(self).entries() == old(self).entries(),
    {
        self.handle_event(event);
    }

    /// The cache listens to loads and unloads.
    fn event_types(&self) -> (r: Vec<EventType>)
        ensures
            r@ == seq![EventType::ChunkLoaded, EventType::ChunkUnloaded],
    {
        let r = vec![EventType::ChunkLoaded, EventType::ChunkUnloaded];
        assert(r@ =~= seq![EventType::ChunkLoaded, EventType::ChunkUnloaded]);
        r
    }
}

} // verus!
