use vstd::prelude::*;
use crate::chunk::{same_pos, Chunk, ChunkPos};
use crate::events::{kind_of, position_of, Event, EventQueue, EventType};

verus! {

/// The larger of the per-axis distances between two chunk positions.
pub open spec fn chebyshev(a: ChunkPos, b: ChunkPos) -> int {
    let dx = if a.0 >= b.0 { a.0 - b.0 } else { b.0 - a.0 };
    let dy = if a.1 >= b.1 { a.1 - b.1 } else { b.1 - a.1 };
    let dz = if a.2 >= b.2 { a.2 - b.2 } else { b.2 - a.2 };
    let m = if dx >= dy { dx } else { dy };
    if m >= dz { m } else { dz }
}

/// The chunk positions within view distance `d` of `center`.
pub open spec fn view_set(center: ChunkPos, d: int) -> Set<ChunkPos> {
    Set::new(|c: ChunkPos| chebyshev(c, center) <= d)
}

/// Lexicographic order on chunk positions: by x, then y, then z.
pub open spec fn lex_lt(a: ChunkPos, b: ChunkPos) -> bool {
    a.0 < b.0 || (a.0 == b.0 && (a.1 < b.1 || (a.1 == b.1 && a.2 < b.2)))
}

/// Whether every chunk position within distance `d` of `center` is
/// representable.
pub open spec fn view_fits(center: ChunkPos, d: int) -> bool {
    &&& i32::MIN <= center.0 - d
    &&& center.0 + d <= i32::MAX
    &&& i32::MIN <= center.1 - d
    &&& center.1 + d <= i32::MAX
    &&& i32::MIN <= center.2 - d
    &&& center.2 + d <= i32::MAX
}

/// Every chunk position within Chebyshev distance `distance` of `center`,
/// once each, in lexicographic order.
pub fn chunk_range(center: ChunkPos, distance: u32) -> (r: Vec<ChunkPos>)
    requires
        view_fits(center, distance as int),
    ensures
        forall|i: int, j: int| 0 <= i < j < r.len() ==> lex_lt(r@[i], r@[j]),
        r@.no_duplicates(),
        r@.to_set() == view_set(center, distance as int),
{
    let (cx, cy, cz) = center;
    let d = distance as i64;
    let mut r: Vec<ChunkPos> = Vec::new();
    let mut x: i64 = cx as i64 - d;
    while x <= cx as i64 + d
        invariant
            cx - d <= x <= cx + d + 1,
            view_fits(center, d as int),
            d == distance,
            center == (cx, cy, cz),
            forall|i: int, j: int| 0 <= i < j < r.len() ==> lex_lt(r@[i], r@[j]),
            forall|i: int| 0 <= i < r.len() ==> chebyshev(#[trigger] r@[i], center) <= d,
            forall|i: int| 0 <= i < r.len() ==> (#[trigger] r@[i]).0 < x,
            forall|c: ChunkPos| chebyshev(c, center) <= d && c.0 < x ==> r@.contains(c),
        decreases cx + d + 1 - x,
    {
        let mut y: i64 = cy as i64 - d;
        while y <= cy as i64 + d
            invariant
                cx - d <= x <= cx + d,
                cy - d <= y <= cy + d + 1,
                view_fits(center, d as int),
                d == distance,
                center == (cx, cy, cz),
                forall|i: int, j: int| 0 <= i < j < r.len() ==> lex_lt(r@[i], r@[j]),
                forall|i: int| 0 <= i < r.len() ==> chebyshev(#[trigger] r@[i], center) <= d,
                forall|i: int|
                    0 <= i < r.len() ==> (#[trigger] r@[i]).0 < x || (r@[i].0 == x && r@[i].1 < y),
                forall|c: ChunkPos|
                    chebyshev(c, center) <= d && (c.0 < x || (c.0 == x && c.1 < y))
                        ==> r@.contains(c),
            decreases cy + d + 1 - y,
        {
            let mut z: i64 = cz as i64 - d;
            while z <= cz as i64 + d
                invariant
                    cx - d <= x <= cx + d,
                    cy - d <= y <= cy + d,
                    cz - d <= z <= cz + d + 1,
                    view_fits(center, d as int),
                    d == distance,
                    center == (cx, cy, cz),
                    forall|i: int, j: int| 0 <= i < j < r.len() ==> lex_lt(r@[i], r@[j]),
                    forall|i: int| 0 <= i < r.len() ==> chebyshev(#[trigger] r@[i], center) <= d,
                    forall|i: int|
                        0 <= i < r.len() ==> (#[trigger] r@[i]).0 < x || (r@[i].0 == x && (r@[i].1
                            < y || (r@[i].1 == y && r@[i].2 < z))),
                    forall|c: ChunkPos|
                        chebyshev(c, center) <= d && (c.0 < x || (c.0 == x && (c.1 < y || (c.1 == y
                            && c.2 < z)))) ==> r@.contains(c),
                decreases cz + d + 1 - z,
            {
                let p: ChunkPos = (x as i32, y as i32, z as i32);
                let ghost before = r@;
                assert(p.0 == x && p.1 == y && p.2 == z);
                r.push(p);
                assert forall|c: ChunkPos|
                    chebyshev(c, center) <= d && (c.0 < x || (c.0 == x && (c.1 < y || (c.1 == y
                        && c.2 < z + 1)))) implies r@.contains(c) by {
                    if c == p {
                        assert(r@[before.len() as int] == p);
                    } else {
                        assert(c.0 < x || (c.0 == x && (c.1 < y || (c.1 == y && c.2 < z))));
                        assert(before.contains(c));
                        let k = choose|k: int| 0 <= k < before.len() && before[k] == c;
                        assert(r@[k] == c);
                    }
                }
                z = z + 1;
            }
            y = y + 1;
        }
        x = x + 1;
    }
    proof {
        assert forall|i: int, j: int| 0 <= i < r.len() && 0 <= j < r.len() && i != j implies r@[i]
            != r@[j] by {
            if i < j {
                assert(lex_lt(r@[i], r@[j]));
            } else {
                assert(lex_lt(r@[j], r@[i]));
            }
        }
        assert forall|c: ChunkPos| r@.to_set().contains(c) <==> view_set(
            center,
            distance as int,
        ).contains(c) by {
            if r@.contains(c) {
                let k = choose|k: int| 0 <= k < r.len() && r@[k] == c;
                assert(chebyshev(r@[k], center) <= d);
            }
        }
        assert(r@.to_set() =~= view_set(center, distance as int));
    }
    r
}

/// The positions that occur as keys among `entries`.
pub open spec fn keys_of<T>(entries: Seq<(ChunkPos, T)>) -> Set<ChunkPos> {
    Set::new(|p: ChunkPos| exists|i: int| 0 <= i < entries.len() && entries[i].0 == p)
}

/// No position occurs twice as a key among `entries`.
pub open spec fn unique_keys<T>(entries: Seq<(ChunkPos, T)>) -> bool {
    forall|i: int, j: int| 0 <= i < j < entries.len() ==> entries[i].0 != entries[j].0
}

/// `emitted` announces exactly the change from the loaded set `before` to the
/// loaded set `after`: one `ChunkLoaded` for each position that entered, one
/// `ChunkUnloaded` for each position that left, and nothing else.
pub open spec fn announces(before: Set<ChunkPos>, after: Set<ChunkPos>, emitted: Seq<Event>) -> bool {
    &&& forall|i: int, j: int|
        0 <= i < j < emitted.len() ==> position_of(emitted[i]) != position_of(emitted[j])
    &&& forall|i: int|
        0 <= i < emitted.len() ==> if kind_of(#[trigger] emitted[i]) == EventType::ChunkLoaded {
            after.contains(position_of(emitted[i])) && !before.contains(position_of(emitted[i]))
        } else {
            before.contains(position_of(emitted[i])) && !after.contains(position_of(emitted[i]))
        }
    &&& forall|p: ChunkPos|
        after.contains(p) && !before.contains(p) ==> exists|i: int|
            0 <= i < emitted.len() && #[trigger] position_of(emitted[i]) == p
    &&& forall|p: ChunkPos|
        before.contains(p) && !after.contains(p) ==> exists|i: int|
            0 <= i < emitted.len() && #[trigger] position_of(emitted[i]) == p
}

/// Finds the entry for `pos`.
fn find_entry(entries: &Vec<(ChunkPos, Chunk)>, pos: ChunkPos) -> (r: Option<usize>)
    ensures
        r matches Some(i) ==> i < entries.len() && entries@[i as int].0 == pos,
        r is None <==> !keys_of(entries@).contains(pos),
{
    let mut i: usize = 0;
    while i < entries.len()
        invariant
            i <= entries.len(),
            forall|k: int| 0 <= k < i ==> entries@[k].0 != pos,
        decreases entries.len() - i,
    {
        if same_pos(entries[i].0, pos) {
            return Some(i);
        }
        i = i + 1;
    }
    None
}

/// The `ChunkLoaded` event announcing each of `entries`, in order.
pub open spec fn loaded_events(entries: Seq<(ChunkPos, Chunk)>) -> Seq<Event> {
    entries.map_values(|e: (ChunkPos, Chunk)| Event::ChunkLoaded(e.0, e.1.blocks))
}

/// `after` is `before` with events appended.
pub open spec fn extends(before: Seq<Event>, after: Seq<Event>) -> bool {
    after.len() >= before.len() && after.subrange(0, before.len() as int) == before
}

/// The events of `after` beyond those of `before`.
pub open spec fn appended(before: Seq<Event>, after: Seq<Event>) -> Seq<Event> {
    after.subrange(before.len() as int, after.len() as int)
}

/// Appends an entry, made by `generate(seed, p)`, for each position `p` of
/// `wanted` that has none, and pushes a `ChunkLoaded` event for each.
fn load_missing<G: Fn(u32, ChunkPos) -> Chunk>(
    chunks: &mut Vec<(ChunkPos, Chunk)>,
    seed: u32,
    wanted: &Vec<ChunkPos>,
    generate: &G,
    event_queue: &mut EventQueue,
)
    requires
        unique_keys(old(chunks)@),
        forall|s: u32, p: ChunkPos| generate.requires((s, p)),
    ensures
        final(chunks)@.len() >= old(chunks)@.len(),
        final(chunks)@.subrange(0, old(chunks)@.len() as int) == old(chunks)@,
        unique_keys(final(chunks)@),
        forall|p: ChunkPos|
            keys_of(final(chunks)@).contains(p) <==> (keys_of(old(chunks)@).contains(p)
                || wanted@.contains(p)),
        forall|k: int|
            old(chunks)@.len() <= k < final(chunks)@.len() ==> {
                &&& !keys_of(old(chunks)@).contains((#[trigger] final(chunks)@[k]).0)
                &&& wanted@.contains(final(chunks)@[k].0)
                &&& generate.ensures((seed, final(chunks)@[k].0), final(chunks)@[k].1)
            },
        forall|e: EventType| #[trigger] final(event_queue).listeners(e) == old(event_queue).listeners(e),
        final(event_queue).pending() == old(event_queue).pending() + loaded_events(
            final(chunks)@.subrange(old(chunks)@.len() as int, final(chunks)@.len() as int),
        ),
{
    let ghost old_entries = chunks@;
    let ghost ol = old_entries.len() as int;
    let ghost old_keys = keys_of(old_entries);
    let ghost old_pending = event_queue.pending();
    let mut i: usize = 0;
    while i < wanted.len()
        invariant
            i <= wanted.len(),
            forall|s: u32, p: ChunkPos| generate.requires((s, p)),
            old_entries == old(chunks)@,
            ol == old_entries.len(),
            old_keys == keys_of(old_entries),
            old_pending == old(event_queue).pending(),
            chunks.len() >= ol,
            chunks@.subrange(0, ol) == old_entries,
            unique_keys(chunks@),
            forall|p: ChunkPos| #[trigger] old_keys.contains(p) ==> keys_of(chunks@).contains(p),
            forall|k: int| 0 <= k < i ==> keys_of(chunks@).contains(#[trigger] wanted@[k]),
            forall|k: int|
                ol <= k < chunks.len() ==> {
                    &&& !old_keys.contains((#[trigger] chunks@[k]).0)
                    &&& exists|w: int| 0 <= w < i && wanted@[w] == chunks@[k].0
                    &&& generate.ensures((seed, chunks@[k].0), chunks@[k].1)
                },
            forall|e: EventType| #[trigger] event_queue.listeners(e) == old(event_queue).listeners(e),
            event_queue.pending() == old_pending + loaded_events(
                chunks@.subrange(ol, chunks.len() as int),
            ),
        decreases wanted.len() - i,
    {
        let pos = wanted[i];
        let ghost before = chunks@;
        if find_entry(chunks, pos).is_none() {
            let chunk = generate(seed, pos);
            let blocks = chunk.blocks;
            chunks.push((pos, chunk));
            event_queue.push_event(Event::ChunkLoaded(pos, blocks));
            proof {
                assert forall|k: int| 0 <= k < before.len() implies chunks@[k] == before[k] by {}
                assert(chunks@.subrange(0, ol) =~= old_entries) by {
                    assert forall|k: int| 0 <= k < ol implies chunks@[k] == old_entries[k] by {
                        assert(before.subrange(0, ol)[k] == before[k]);
                    }
                }
                assert(chunks@.subrange(ol, chunks.len() as int) =~= before.subrange(
                    ol,
                    before.len() as int,
                ).push((pos, chunk)));
                assert(loaded_events(chunks@.subrange(ol, chunks.len() as int)) =~= loaded_events(
                    before.subrange(ol, before.len() as int),
                ).push(Event::ChunkLoaded(pos, blocks)));
                assert(event_queue.pending() =~= old_pending + loaded_events(
                    chunks@.subrange(ol, chunks.len() as int),
                ));
                assert forall|a: int, b: int| 0 <= a < b < chunks.len() implies chunks@[a].0
                    != chunks@[b].0 by {
                    if b == before.len() {
                        assert(keys_of(before).contains(before[a].0));
                    }
                }
                assert forall|p: ChunkPos| #[trigger] old_keys.contains(p) implies keys_of(
                    chunks@,
                ).contains(p) by {
                    assert(keys_of(before).contains(p));
                    let k = choose|k: int| 0 <= k < before.len() && before[k].0 == p;
                    assert(chunks@[k].0 == p);
                }
                assert forall|k: int| 0 <= k < i + 1 implies keys_of(chunks@).contains(
                    #[trigger] wanted@[k],
                ) by {
                    if k < i {
                        assert(keys_of(before).contains(wanted@[k]));
                        let q = choose|q: int| 0 <= q < before.len() && before[q].0 == wanted@[k];
                        assert(chunks@[q].0 == wanted@[k]);
                    } else {
                        assert(chunks@[before.len() as int].0 == wanted@[k]);
                    }
                }
                assert(!old_keys.contains(pos)) by {
                    if old_keys.contains(pos) {
                        assert(keys_of(before).contains(pos));
                    }
                }
                assert forall|k: int| ol <= k < chunks.len() implies exists|w: int|
                    0 <= w < i + 1 && wanted@[w] == (#[trigger] chunks@[k]).0 by {
                    if k < before.len() {
                        assert(before[k] == chunks@[k]);
                        let w = choose|w: int| 0 <= w < i && wanted@[w] == before[k].0;
                        assert(0 <= w < i + 1 && wanted@[w] == chunks@[k].0);
                    } else {
                        assert(wanted@[i as int] == chunks@[k].0);
                    }
                }
            }
        } else {
            proof {
                assert forall|k: int| ol <= k < chunks.len() implies exists|w: int|
                    0 <= w < i + 1 && wanted@[w] == (#[trigger] chunks@[k]).0 by {
                    let w = choose|w: int| 0 <= w < i && wanted@[w] == chunks@[k].0;
                    assert(0 <= w < i + 1 && wanted@[w] == chunks@[k].0);
                }
            }
        }
        i = i + 1;
    }
    proof {
        assert forall|p: ChunkPos|
            keys_of(chunks@).contains(p) <==> (old_keys.contains(p) || wanted@.contains(p)) by {
            if wanted@.contains(p) {
                let k = choose|k: int| 0 <= k < wanted.len() && wanted@[k] == p;
                assert(keys_of(chunks@).contains(wanted@[k]));
            }
            if keys_of(chunks@).contains(p) && !old_keys.contains(p) {
                let q = choose|q: int| 0 <= q < chunks.len() && chunks@[q].0 == p;
                if q < ol {
                    assert(chunks@.subrange(0, ol)[q] == chunks@[q]);
                    assert(old_keys.contains(p));
                }
                let w = choose|w: int| 0 <= w < i && wanted@[w] == chunks@[q].0;
                assert(wanted@[w] == p);
            }
        }
        assert forall|k: int| ol <= k < chunks.len() implies wanted@.contains((#[trigger] chunks@[k]).0) by {
            let w = choose|w: int| 0 <= w < i && wanted@[w] == chunks@[k].0;
        }
    }
}

/// Keeps the entries within `distance` of `center`, in order, and pushes a
/// `ChunkUnloaded` event for each of the others.
fn drop_outside(
    chunks: &Vec<(ChunkPos, Chunk)>,
    center: ChunkPos,
    distance: u32,
    event_queue: &mut EventQueue,
) -> (kept: Vec<(ChunkPos, Chunk)>)
    requires
        unique_keys(chunks@),
    ensures
        unique_keys(kept@),
        forall|m: int|
            0 <= m < kept.len() ==> chunks@.contains(#[trigger] kept@[m]) && chebyshev(
                kept@[m].0,
                center,
            ) <= distance,
        forall|k: int|
            0 <= k < chunks.len() && chebyshev((#[trigger] chunks@[k]).0, center) <= distance
                ==> kept@.contains(chunks@[k]),
        forall|e: EventType| #[trigger] final(event_queue).listeners(e) == old(event_queue).listeners(e),
        extends(old(event_queue).pending(), final(event_queue).pending()),
        forall|i: int, j: int|
            #![trigger appended(old(event_queue).pending(), final(event_queue).pending())[i], appended(old(event_queue).pending(), final(event_queue).pending())[j]]
            0 <= i < j < appended(old(event_queue).pending(), final(event_queue).pending()).len()
                ==> position_of(appended(old(event_queue).pending(), final(event_queue).pending())[i])
                != position_of(appended(old(event_queue).pending(), final(event_queue).pending())[j]),
        forall|i: int|
            0 <= i < appended(old(event_queue).pending(), final(event_queue).pending()).len()
                ==> exists|k: int|
                0 <= k < chunks.len() && chebyshev(chunks@[k].0, center) > distance
                    && #[trigger] appended(old(event_queue).pending(), final(event_queue).pending())[i]
                    == Event::ChunkUnloaded(chunks@[k].0),
        forall|k: int|
            0 <= k < chunks.len() && chebyshev((#[trigger] chunks@[k]).0, center) > distance
                ==> appended(old(event_queue).pending(), final(event_queue).pending()).contains(
                Event::ChunkUnloaded(chunks@[k].0),
            ),
        (forall|k: int| 0 <= k < chunks.len() ==> chebyshev((#[trigger] chunks@[k]).0, center) <= distance)
            ==> kept@ == chunks@,
{
    let ghost grown = chunks@;
    let ghost start = event_queue.pending();
    let ghost sl = start.len() as int;
    let ghost mut kidx: Seq<int> = Seq::empty();
    let ghost mut uidx: Seq<int> = Seq::empty();
    let mut kept: Vec<(ChunkPos, Chunk)> = Vec::new();
    let mut j: usize = 0;
    while j < chunks.len()
        invariant
            j <= chunks.len(),
            chunks@ == grown,
            start == old(event_queue).pending(),
            sl == start.len(),
            unique_keys(grown),
            kidx.len() == kept.len(),
            forall|m: int|
                0 <= m < kept.len() ==> 0 <= #[trigger] kidx[m] < j && grown[kidx[m]] == kept@[m],
            forall|a: int, b: int| 0 <= a < b < kidx.len() ==> kidx[a] < kidx[b],
            forall|k: int|
                0 <= k < j && chebyshev((#[trigger] grown[k]).0, center) <= distance
                    ==> kept@.contains(grown[k]),
            forall|m: int| 0 <= m < kept.len() ==> chebyshev((#[trigger] kept@[m]).0, center) <= distance,
            forall|e: EventType| #[trigger] event_queue.listeners(e) == old(event_queue).listeners(e),
            event_queue.pending().len() == sl + uidx.len(),
            event_queue.pending().subrange(0, sl) == start,
            forall|m: int|
                0 <= m < uidx.len() ==> {
                    &&& 0 <= #[trigger] uidx[m] < j
                    &&& chebyshev(grown[uidx[m]].0, center) > distance
                    &&& event_queue.pending()[sl + m] == Event::ChunkUnloaded(grown[uidx[m]].0)
                },
            forall|a: int, b: int| 0 <= a < b < uidx.len() ==> uidx[a] < uidx[b],
            forall|k: int|
                0 <= k < j && chebyshev((#[trigger] grown[k]).0, center) > distance ==> exists|m: int|
                    0 <= m < uidx.len() && uidx[m] == k,
            (forall|k: int| 0 <= k < j ==> chebyshev((#[trigger] grown[k]).0, center) <= distance)
                ==> kept@ == grown.take(j as int),
        decreases grown.len() - j,
    {
        let entry = chunks[j];
        let (ex, ey, ez) = entry.0;
        let (cx, cy, cz) = center;
        let dx = if ex >= cx { ex as i64 - cx as i64 } else { cx as i64 - ex as i64 };
        let dy = if ey >= cy { ey as i64 - cy as i64 } else { cy as i64 - ey as i64 };
        let dz = if ez >= cz { ez as i64 - cz as i64 } else { cz as i64 - ez as i64 };
        let d = distance as i64;
        let ghost kept_before = kept@;
        let ghost pending_before = event_queue.pending();
        if dx <= d && dy <= d && dz <= d {
            assert(chebyshev(entry.0, center) <= distance);
            kept.push(entry);
            proof {
                if forall|k: int| 0 <= k < j + 1 ==> chebyshev((#[trigger] grown[k]).0, center) <= distance {
                    assert(kept_before == grown.take(j as int));
                    assert(kept@ =~= grown.take(j + 1));
                }
                kidx = kidx.push(j as int);
                assert forall|k: int|
                    0 <= k < j + 1 && chebyshev((#[trigger] grown[k]).0, center) <= distance implies kept@.contains(
                    grown[k],
                ) by {
                    if k < j {
                        let m = choose|m: int| 0 <= m < kept_before.len() && kept_before[m] == grown[k];
                        assert(kept@[m] == grown[k]);
                    } else {
                        assert(kept@[kept_before.len() as int] == grown[k]);
                    }
                }
            }
        } else {
            assert(chebyshev(entry.0, center) > distance);
            event_queue.push_event(Event::ChunkUnloaded(entry.0));
            let ghost uidx_before = uidx;
            proof {
                uidx = uidx.push(j as int);
                assert forall|k: int| 0 <= k < sl implies event_queue.pending()[k] == start[k] by {
                    assert(pending_before.subrange(0, sl)[k] == pending_before[k]);
                }
                assert(event_queue.pending().subrange(0, sl) =~= start);
                assert forall|k: int|
                    0 <= k < j + 1 && chebyshev((#[trigger] grown[k]).0, center) > distance implies exists|m: int|
                        0 <= m < uidx.len() && uidx[m] == k by {
                    if k == j {
                        assert(uidx[uidx.len() - 1] == k);
                    } else {
                        let m = choose|m: int| 0 <= m < uidx_before.len() && uidx_before[m] == k;
                        assert(uidx[m] == k);
                    }
                }
            }
        }
        j = j + 1;
    }
    proof {
        assert(grown.take(j as int) =~= grown);
        let all = event_queue.pending();
        let unl = appended(start, all);
        assert forall|a: int, b: int| 0 <= a < b < kept.len() implies kept@[a].0 != kept@[b].0 by {
            assert(kidx[a] < kidx[b]);
        }
        assert forall|m: int| 0 <= m < kept.len() implies chunks@.contains(#[trigger] kept@[m]) by {
            assert(grown[kidx[m]] == kept@[m]);
        }
        assert forall|i: int, i2: int|
            #![trigger unl[i], unl[i2]]
            0 <= i < i2 < unl.len() implies position_of(unl[i]) != position_of(unl[i2]) by {
            assert(unl[i] == all[sl + i] && unl[i2] == all[sl + i2]);
            assert(uidx[i] < uidx[i2]);
        }
        assert forall|i: int| 0 <= i < unl.len() implies exists|k: int|
            0 <= k < chunks.len() && chebyshev(chunks@[k].0, center) > distance
                && #[trigger] unl[i] == Event::ChunkUnloaded(chunks@[k].0) by {
            assert(unl[i] == all[sl + i]);
            assert(0 <= uidx[i] < j);
        }
        assert forall|k: int|
            0 <= k < chunks.len() && chebyshev((#[trigger] chunks@[k]).0, center) > distance implies unl.contains(
            Event::ChunkUnloaded(chunks@[k].0),
        ) by {
            let m = choose|m: int| 0 <= m < uidx.len() && uidx[m] == k;
            assert(unl[m] == all[sl + m]);
        }
    }
    kept
}

/// What the two phases of an update establish together.
proof fn lemma_update_announces(
    old_entries: Seq<(ChunkPos, Chunk)>,
    grown: Seq<(ChunkPos, Chunk)>,
    fin: Seq<(ChunkPos, Chunk)>,
    old_pending: Seq<Event>,
    mid_pending: Seq<Event>,
    all: Seq<Event>,
    target: Set<ChunkPos>,
    center: ChunkPos,
    d: int,
)
    requires
        target == view_set(center, d),
        grown.len() >= old_entries.len(),
        forall|k: int| 0 <= k < old_entries.len() ==> grown[k] == old_entries[k],
        unique_keys(grown),
        forall|p: ChunkPos|
            keys_of(grown).contains(p) <==> (keys_of(old_entries).contains(p) || target.contains(p)),
        forall|k: int|
            old_entries.len() <= k < grown.len() ==> {
                &&& !keys_of(old_entries).contains((#[trigger] grown[k]).0)
                &&& target.contains(grown[k].0)
            },
        mid_pending == old_pending + loaded_events(
            grown.subrange(old_entries.len() as int, grown.len() as int),
        ),
        unique_keys(fin),
        forall|m: int| 0 <= m < fin.len() ==> grown.contains(#[trigger] fin[m]) && chebyshev(fin[m].0, center) <= d,
        forall|k: int| 0 <= k < grown.len() && chebyshev((#[trigger] grown[k]).0, center) <= d ==> fin.contains(grown[k]),
        extends(mid_pending, all),
        forall|i: int, j: int|
            #![trigger appended(mid_pending, all)[i], appended(mid_pending, all)[j]]
            0 <= i < j < appended(mid_pending, all).len() ==> position_of(appended(mid_pending, all)[i])
                != position_of(appended(mid_pending, all)[j]),
        forall|i: int|
            0 <= i < appended(mid_pending, all).len() ==> {
                &&& #[trigger] appended(mid_pending, all)[i] is ChunkUnloaded
                &&& keys_of(grown).contains(position_of(appended(mid_pending, all)[i]))
                &&& chebyshev(position_of(appended(mid_pending, all)[i]), center) > d
            },
        forall|k: int|
            0 <= k < grown.len() && chebyshev((#[trigger] grown[k]).0, center) > d
                ==> appended(mid_pending, all).contains(Event::ChunkUnloaded(grown[k].0)),
    ensures
        unique_keys(fin),
        keys_of(fin) == target,
        forall|k: int|
            0 <= k < old_entries.len() && target.contains((#[trigger] old_entries[k]).0)
                ==> fin.contains(old_entries[k]),
        extends(old_pending, all),
        announces(keys_of(old_entries), target, appended(old_pending, all)),
        forall|i: int|
            0 <= i < appended(old_pending, all).len() ==> (#[trigger] appended(old_pending, all)[i] matches Event::ChunkLoaded(
                p,
                b,
            ) ==> fin.contains((p, Chunk { blocks: b }))),
{
    let ol = old_entries.len() as int;
    let opl = old_pending.len() as int;
    let mpl = mid_pending.len() as int;
    let old_keys = keys_of(old_entries);
    let nl = grown.len() - ol;
    let loads = loaded_events(grown.subrange(ol, grown.len() as int));
    let unl = appended(mid_pending, all);
    let emitted = appended(old_pending, all);
    assert forall|m: int| 0 <= m < mpl implies all[m] == mid_pending[m] by {
        assert(all.subrange(0, mpl)[m] == all[m]);
    }
    assert(all.subrange(0, opl) =~= old_pending);
    assert(emitted =~= loads + unl);
    assert forall|i: int| 0 <= i < nl implies #[trigger] emitted[i] == Event::ChunkLoaded(
        grown[ol + i].0,
        grown[ol + i].1.blocks,
    ) by {
        assert(loads[i] == Event::ChunkLoaded(grown[ol + i].0, grown[ol + i].1.blocks));
    }
    assert forall|i: int| nl <= i < emitted.len() implies emitted[i] == unl[i - nl] by {}
    // the loaded set is the target set
    assert forall|p: ChunkPos| keys_of(fin).contains(p) <==> target.contains(p) by {
        if keys_of(fin).contains(p) {
            let m = choose|m: int| 0 <= m < fin.len() && fin[m].0 == p;
            assert(chebyshev(fin[m].0, center) <= d);
        }
        if target.contains(p) {
            assert(keys_of(grown).contains(p));
            let k = choose|k: int| 0 <= k < grown.len() && grown[k].0 == p;
            assert(fin.contains(grown[k]));
            let m = choose|m: int| 0 <= m < fin.len() && fin[m] == grown[k];
            assert(fin[m].0 == p);
        }
    }
    assert(keys_of(fin) =~= target);
    assert forall|k: int|
        0 <= k < ol && target.contains((#[trigger] old_entries[k]).0) implies fin.contains(
        old_entries[k],
    ) by {
        assert(grown[k] == old_entries[k]);
    }
    // unloads concern old positions only
    assert forall|i: int| 0 <= i < unl.len() implies exists|k: int|
        0 <= k < ol && !target.contains(grown[k].0) && #[trigger] unl[i]
            == Event::ChunkUnloaded(grown[k].0) by {
        let k = choose|k: int| 0 <= k < grown.len() && grown[k].0 == position_of(unl[i]);
        if k >= ol {
            assert(target.contains(grown[k].0));
        }
    }
    assert forall|i: int, j: int| 0 <= i < j < emitted.len() implies position_of(emitted[i])
        != position_of(emitted[j]) by {
        if j < nl {
            assert(emitted[i] == Event::ChunkLoaded(grown[ol + i].0, grown[ol + i].1.blocks));
            assert(emitted[j] == Event::ChunkLoaded(grown[ol + j].0, grown[ol + j].1.blocks));
        } else if i < nl {
            assert(emitted[i] == Event::ChunkLoaded(grown[ol + i].0, grown[ol + i].1.blocks));
            assert(emitted[j] == unl[j - nl]);
            let k = choose|k: int|
                0 <= k < ol && !target.contains(grown[k].0) && #[trigger] unl[j - nl]
                    == Event::ChunkUnloaded(grown[k].0);
        } else {
            assert(emitted[i] == unl[i - nl] && emitted[j] == unl[j - nl]);
        }
    }
    assert forall|i: int| 0 <= i < emitted.len() implies if kind_of(#[trigger] emitted[i])
        == EventType::ChunkLoaded {
        target.contains(position_of(emitted[i])) && !old_keys.contains(position_of(emitted[i]))
    } else {
        old_keys.contains(position_of(emitted[i])) && !target.contains(position_of(emitted[i]))
    } by {
        if i < nl {
            assert(emitted[i] == Event::ChunkLoaded(grown[ol + i].0, grown[ol + i].1.blocks));
        } else {
            assert(emitted[i] == unl[i - nl]);
            let k = choose|k: int|
                0 <= k < ol && !target.contains(grown[k].0) && #[trigger] unl[i - nl]
                    == Event::ChunkUnloaded(grown[k].0);
            assert(old_entries[k] == grown[k]);
        }
    }
    assert forall|p: ChunkPos| target.contains(p) && !old_keys.contains(p) implies exists|i: int|
        0 <= i < emitted.len() && #[trigger] position_of(emitted[i]) == p by {
        assert(keys_of(grown).contains(p));
        let k = choose|k: int| 0 <= k < grown.len() && grown[k].0 == p;
        if k < ol {
            assert(old_keys.contains(old_entries[k].0));
        }
        assert(emitted[k - ol] == Event::ChunkLoaded(grown[k].0, grown[k].1.blocks));
    }
    assert forall|p: ChunkPos| old_keys.contains(p) && !target.contains(p) implies exists|i: int|
        0 <= i < emitted.len() && #[trigger] position_of(emitted[i]) == p by {
        let k0 = choose|k: int| 0 <= k < ol && old_entries[k].0 == p;
        assert(grown[k0] == old_entries[k0]);
        assert(unl.contains(Event::ChunkUnloaded(grown[k0].0)));
        let m = choose|m: int| 0 <= m < unl.len() && unl[m] == Event::ChunkUnloaded(grown[k0].0);
        assert(emitted[m + nl] == unl[m]);
    }
    // loaded events carry the stored chunk
    assert forall|i: int| 0 <= i < emitted.len() implies (#[trigger] emitted[i] matches Event::ChunkLoaded(
        p,
        b,
    ) ==> fin.contains((p, Chunk { blocks: b }))) by {
        if i < nl {
            let k = ol + i;
            assert(emitted[i] == Event::ChunkLoaded(grown[k].0, grown[k].1.blocks));
            assert(target.contains(grown[k].0));
            assert(fin.contains(grown[k]));
            assert(grown[k] == (grown[k].0, Chunk { blocks: grown[k].1.blocks }));
        } else {
            assert(emitted[i] == unl[i - nl]);
            let k = choose|k: int|
                0 <= k < ol && !target.contains(grown[k].0) && #[trigger] unl[i - nl]
                    == Event::ChunkUnloaded(grown[k].0);
        }
    }
}

/// The loaded chunks around a viewpoint, keyed by chunk position, together
/// with the seed they are generated from and the view distance in chunks.
pub struct World {
    seed: u32,
    view_distance: u32,
    chunks: Vec<(ChunkPos, Chunk)>,
}

impl World {
    /// The loaded chunks with their positions.
    pub closed spec fn entries(&self) -> Seq<(ChunkPos, Chunk)> {
        self.chunks@
    }

    pub closed spec fn spec_seed(&self) -> u32 {
        self.seed
    }

    pub closed spec fn distance(&self) -> int {
        self.view_distance as int
    }

    /// The positions of the loaded chunks.
    pub open spec fn loaded(&self) -> Set<ChunkPos> {
        keys_of(self.entries())
    }

    pub open spec fn wf(&self) -> bool {
        unique_keys(self.entries())
    }

    /// An empty world with seed 24601 and view distance 3.
    pub fn new() -> (r: World)
        ensures
            r.wf(),
            r.spec_seed() == 24601,
            r.distance() == 3,
            r.entries() == Seq::<(ChunkPos, Chunk)>::empty(),
    {
        World { seed: 24601, view_distance: 3, chunks: Vec::new() }
    }

    /// An empty world with the given seed and view distance.
    pub fn with_settings(seed: u32, view_distance: u32) -> (r: World)
        ensures
            r.wf(),
            r.spec_seed() == seed,
            r.distance() == view_distance,
            r.entries() == Seq::<(ChunkPos, Chunk)>::empty(),
    {
        World { seed, view_distance, chunks: Vec::new() }
    }

    pub fn seed(&self) -> (r: u32)
        ensures
            r == self.spec_seed(),
    {
        self.seed
    }

    pub fn view_distance(&self) -> (r: u32)
        ensures
            r == self.distance(),
    {
        self.view_distance
    }


    pub fn chunk_count(&self) -> (r: usize)
        ensures
            r == self.entries().len(),
    {
        self.chunks.len()
    }

    pub fn is_loaded(&self, pos: ChunkPos) -> (r: bool)
        ensures
            r == self.loaded().contains(pos),
    {
        find_entry(&self.chunks, pos).is_some()
    }

    /// The chunk loaded at `pos`, if any.
    pub fn chunk(&self, pos: ChunkPos) -> (r: Option<&Chunk>)
        ensures
            r is None <==> !self.loaded().contains(pos),
            r matches Some(c) ==> self.entries().contains((pos, *c)),
    {
        match find_entry(&self.chunks, pos) {
            Some(i) => {
                proof {
                    assert(self.chunks@[i as int] == (pos, self.chunks@[i as int].1));
                }
                Some(&self.chunks[i].1)
            },
            None => None,
        }
    }

    /// The positions of the loaded chunks.
    pub fn loaded_positions(&self) -> (r: Vec<ChunkPos>)
        ensures
            r@.len() == self.entries().len(),
            forall|i: int| 0 <= i < r.len() ==> r@[i] == self.entries()[i].0,
    {
        let mut r: Vec<ChunkPos> = Vec::new();
        let mut i: usize = 0;
        while i < self.chunks.len()
            invariant
                i <= self.chunks.len(),
                r.len() == i,
                forall|k: int| 0 <= k < i ==> r@[k] == self.chunks@[k].0,
            decreases self.chunks.len() - i,
        {
            r.push(self.chunks[i].0);
            i = i + 1;
        }
        r
    }

    /// Loads every chunk within the view distance of `center` that is not
    /// loaded yet, generating it with `generate(seed, position)`, and
    /// unloads every loaded chunk farther away; pushes one event per change.
    pub fn update<G: Fn(u32, ChunkPos) -> Chunk>(
        &mut self,
        center: ChunkPos,
        generate: &G,
        event_queue: &mut EventQueue,
    )
        requires
            old(self).wf(),
            view_fits(center, old(self).distance()),
            forall|s: u32, p: ChunkPos| generate.requires((s, p)),
        ensures
            final(self).wf(),
            final(self).spec_seed() == old(self).spec_seed(),
            final(self).distance() == old(self).distance(),
            final(self).loaded() == view_set(center, old(self).distance()),
            forall|k: int|
                0 <= k < old(self).entries().len() && final(self).loaded().contains(
                    (#[trigger] old(self).entries()[k]).0,
                ) ==> final(self).entries().contains(old(self).entries()[k]),
            forall|k: int|
                0 <= k < final(self).entries().len() && !old(self).loaded().contains(
                    (#[trigger] final(self).entries()[k]).0,
                ) ==> generate.ensures(
                    (old(self).spec_seed(), final(self).entries()[k].0),
                    final(self).entries()[k].1,
                ),
            forall|k: EventType| #[trigger] final(event_queue).listeners(k) == old(
                event_queue,
            ).listeners(k),
            extends(old(event_queue).pending(), final(event_queue).pending()),
            announces(
                old(self).loaded(),
                final(self).loaded(),
                appended(old(event_queue).pending(), final(event_queue).pending()),
            ),
            forall|i: int|
                0 <= i < appended(old(event_queue).pending(), final(event_queue).pending()).len()
                    ==> (#[trigger] appended(
                    old(event_queue).pending(),
                    final(event_queue).pending(),
                )[i] matches Event::ChunkLoaded(p, b) ==> final(self).entries().contains(
                    (p, Chunk { blocks: b }),
                )),
            old(self).loaded() == view_set(center, old(self).distance()) ==> {
                &&& final(self).entries() == old(self).entries()
                &&& final(event_queue).pending() == old(event_queue).pending()
            },
    {
        let ghost old_entries = self.chunks@;
        let ghost old_pending = event_queue.pending();
        let wanted = chunk_range(center, self.view_distance);
        load_missing(&mut self.chunks, self.seed, &wanted, generate, event_queue);
        let ghost grown = self.chunks@;
        let ghost mid_pending = event_queue.pending();
        let kept = drop_outside(&self.chunks, center, self.view_distance, event_queue);
        self.chunks = kept;
        proof {
            let target = view_set(center, self.view_distance as int);
            let fin = self.chunks@;
            let ol = old_entries.len() as int;
            assert forall|p: ChunkPos| wanted@.contains(p) <==> target.contains(p) by {
                assert(wanted@.to_set().contains(p) == wanted@.contains(p));
            }
            assert forall|k: int| 0 <= k < ol implies grown[k] == old_entries[k] by {
                assert(grown.subrange(0, ol)[k] == grown[k]);
            }
            let unl = appended(mid_pending, event_queue.pending());
            assert forall|i: int| 0 <= i < unl.len() implies {
                &&& #[trigger] unl[i] is ChunkUnloaded
                &&& keys_of(grown).contains(position_of(unl[i]))
                &&& chebyshev(position_of(unl[i]), center) > self.view_distance as int
            } by {
                let k = choose|k: int|
                    0 <= k < grown.len() && chebyshev(grown[k].0, center) > self.view_distance as int
                        && #[trigger] unl[i] == Event::ChunkUnloaded(grown[k].0);
            }
            lemma_update_announces(
                old_entries,
                grown,
                fin,
                old_pending,
                mid_pending,
                event_queue.pending(),
                target,
                center,
                self.view_distance as int,
            );
            if keys_of(old_entries) == target {
                if grown.len() > ol {
                    assert(!keys_of(old_entries).contains(grown[ol].0));
                    assert(wanted@.contains(grown[ol].0));
                }
                assert(grown =~= old_entries);
                assert forall|k: int| 0 <= k < grown.len() implies chebyshev(
                    (#[trigger] grown[k]).0,
                    center,
                ) <= self.view_distance by {
                    assert(keys_of(old_entries).contains(old_entries[k].0));
                }
                assert(fin == grown);
                let all = event_queue.pending();
                let emitted = appended(old_pending, all);
                if emitted.len() > 0 {
                    let e = emitted[0];
                    assert(target.contains(position_of(e)) && !target.contains(position_of(e)));
                }
                assert(all =~= old_pending) by {
                    assert(all.subrange(0, old_pending.len() as int) == old_pending);
                }
            }
            assert forall|k: int|
                0 <= k < fin.len() && !keys_of(old_entries).contains(
                    (#[trigger] fin[k]).0,
                ) implies generate.ensures((self.seed, fin[k].0), fin[k].1) by {
                assert(grown.contains(fin[k]));
                let g = choose|g: int| 0 <= g < grown.len() && grown[g] == fin[k];
                if g < ol {
                    assert(keys_of(old_entries).contains(old_entries[g].0));
                }
            }
        }
    }
}

} // verus!
