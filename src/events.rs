use vstd::prelude::*;
use crate::chunk::{ChunkBlockData, ChunkPos};

verus! {

/// What happened to a chunk; carries everything a listener needs.
#[derive(Clone, Copy)]
pub enum Event {
    ChunkLoaded(ChunkPos, ChunkBlockData),
    ChunkUnloaded(ChunkPos),
}

/// The kind of an event, by which listeners subscribe.
#[derive(Clone, Copy, Debug, PartialEq, Eq, Structural, Hash)]
pub enum EventType {
    ChunkLoaded,
    ChunkUnloaded,
}

/// Who a listener is; the queue tells listeners apart by this alone.
pub type ListenerId = u64;

pub open spec fn kind_of(e: Event) -> EventType {
    match e {
        Event::ChunkLoaded(..) => EventType::ChunkLoaded,
        Event::ChunkUnloaded(..) => EventType::ChunkUnloaded,
    }
}

pub open spec fn position_of(e: Event) -> ChunkPos {
    match e {
        Event::ChunkLoaded(p, _) => p,
        Event::ChunkUnloaded(p) => p,
    }
}

impl Event {
    pub fn event_type(&self) -> (r: EventType)
        ensures
            r == kind_of(*self),
    {
        match self {
            Event::ChunkLoaded(..) => EventType::ChunkLoaded,
            Event::ChunkUnloaded(..) => EventType::ChunkUnloaded,
        }
    }

    pub fn position(&self) -> (r: ChunkPos)
        ensures
            r == position_of(*self),
    {
        match self {
            Event::ChunkLoaded(p, _) => *p,
            Event::ChunkUnloaded(p) => *p,
        }
    }

    /// The event's kind as text.
    pub fn name(&self) -> (r: &'static str)
        ensures
            kind_of(*self) == EventType::ChunkLoaded ==> r@ == "ChunkLoaded"@,
            kind_of(*self) == EventType::ChunkUnloaded ==> r@ == "ChunkUnloaded"@,
    {
        match self {
            Event::ChunkLoaded(..) => "ChunkLoaded",
            Event::ChunkUnloaded(..) => "ChunkUnloaded",
        }
    }
}

/// Something that reacts to delivered events.
pub trait EventHandler {
    fn on_event(&mut self, event: &Event);

    /// The kinds of event this handler wants to receive.
    fn event_types(&self) -> Vec<EventType>;
}

/// `listeners` after registering `l`, when `wanted`: appended at the end
/// unless it is already there.
pub open spec fn with_listener(listeners: Seq<ListenerId>, l: ListenerId, wanted: bool) -> Seq<ListenerId> {
    if wanted && !listeners.contains(l) {
        listeners.push(l)
    } else {
        listeners
    }
}

/// `listeners` without `l`, the others in their order.
pub open spec fn without_listener(listeners: Seq<ListenerId>, l: ListenerId) -> Seq<ListenerId>
    decreases listeners.len(),
{
    if listeners.len() == 0 {
        listeners
    } else if listeners.last() == l {
        without_listener(listeners.drop_last(), l)
    } else {
        without_listener(listeners.drop_last(), l).push(listeners.last())
    }
}

/// Removing `l` leaves no `l`, adds no listener, and keeps a list free of
/// repeats.
pub proof fn lemma_without_listener(listeners: Seq<ListenerId>, l: ListenerId)
    ensures
        !without_listener(listeners, l).contains(l),
        forall|x: ListenerId| #[trigger] without_listener(listeners, l).contains(x) ==> listeners.contains(x),
        listeners.no_duplicates() ==> without_listener(listeners, l).no_duplicates(),
    decreases listeners.len(),
{
    if listeners.len() > 0 {
        let rest = listeners.drop_last();
        lemma_without_listener(rest, l);
        let w = without_listener(rest, l);
        assert forall|x: ListenerId| #[trigger] without_listener(listeners, l).contains(x) implies listeners.contains(x) by {
            if w.contains(x) {
                let k = choose|k: int| 0 <= k < w.len() && w[k] == x;
                assert(rest.contains(x));
                let j = choose|j: int| 0 <= j < rest.len() && rest[j] == x;
                assert(listeners[j] == x);
            } else {
                assert(listeners[listeners.len() - 1] == x);
            }
        }
        if listeners.no_duplicates() {
            assert(rest.no_duplicates()) by {
                assert forall|a: int, b: int| 0 <= a < rest.len() && 0 <= b < rest.len() && a != b implies rest[a] != rest[b] by {
                    assert(rest[a] == listeners[a] && rest[b] == listeners[b]);
                }
            }
            if listeners.last() != l {
                assert(!w.contains(listeners.last())) by {
                    if w.contains(listeners.last()) {
                        let j = choose|j: int| 0 <= j < rest.len() && rest[j] == listeners.last();
                        assert(listeners[j] == listeners[listeners.len() - 1]);
                    }
                }
                let r = w.push(listeners.last());
                assert forall|a: int, b: int| 0 <= a < r.len() && 0 <= b < r.len() && a != b implies r[a] != r[b] by {
                    if a == w.len() {
                        assert(w.contains(r[b]));
                    } else if b == w.len() {
                        assert(w.contains(r[a]));
                    }
                }
            }
        }
        if listeners.last() != l {
            let r = w.push(listeners.last());
            assert forall|k: int| 0 <= k < r.len() implies r[k] != l by {
                if k < w.len() {
                    assert(w.contains(w[k]));
                }
            }
        }
    }
}

/// Each listener of `listeners` paired with the event `e`, in order.
pub open spec fn addressed(listeners: Seq<ListenerId>, e: Event) -> Seq<(ListenerId, Event)> {
    listeners.map_values(|l: ListenerId| (l, e))
}

/// What a dispatch hands out: for each event in push order, one delivery to
/// each listener of its kind, in registration order.
pub open spec fn deliveries(
    events: Seq<Event>,
    loaded: Seq<ListenerId>,
    unloaded: Seq<ListenerId>,
) -> Seq<(ListenerId, Event)>
    decreases events.len(),
{
    if events.len() == 0 {
        seq![]
    } else {
        let e = events.last();
        let listeners = if kind_of(e) == EventType::ChunkLoaded {
            loaded
        } else {
            unloaded
        };
        deliveries(events.drop_last(), loaded, unloaded) + addressed(listeners, e)
    }
}

/// Whether `kinds` holds `kind`.
fn contains_kind(kinds: &Vec<EventType>, kind: EventType) -> (r: bool)
    ensures
        r == kinds@.contains(kind),
{
    let mut i: usize = 0;
    while i < kinds.len()
        invariant
            i <= kinds.len(),
            forall|k: int| 0 <= k < i ==> kinds@[k] != kind,
        decreases kinds.len() - i,
    {
        if kinds[i] == kind {
            assert(kinds@[i as int] == kind);
            return true;
        }
        i = i + 1;
    }
    false
}

/// Whether `listeners` holds `l`.
fn contains_listener(listeners: &Vec<ListenerId>, l: ListenerId) -> (r: bool)
    ensures
        r == listeners@.contains(l),
{
    let mut i: usize = 0;
    while i < listeners.len()
        invariant
            i <= listeners.len(),
            forall|k: int| 0 <= k < i ==> listeners@[k] != l,
        decreases listeners.len() - i,
    {
        if listeners[i] == l {
            assert(listeners@[i as int] == l);
            return true;
        }
        i = i + 1;
    }
    false
}

fn add_listener(listeners: &mut Vec<ListenerId>, l: ListenerId, wanted: bool)
    requires
        old(listeners)@.no_duplicates(),
    ensures
        final(listeners)@ == with_listener(old(listeners)@, l, wanted),
        final(listeners)@.no_duplicates(),
{
    if wanted && !contains_listener(listeners, l) {
        let ghost before = listeners@;
        listeners.push(l);
        proof {
            assert forall|a: int, b: int|
                0 <= a < listeners@.len() && 0 <= b < listeners@.len() && a != b implies listeners@[a]
                != listeners@[b] by {
                if a == before.len() {
                    assert(before.contains(listeners@[b]));
                } else if b == before.len() {
                    assert(before.contains(listeners@[a]));
                }
            }
        }
    }
}

fn remove_listener(listeners: &Vec<ListenerId>, l: ListenerId) -> (r: Vec<ListenerId>)
    ensures
        r@ == without_listener(listeners@, l),
{
    let mut r: Vec<ListenerId> = Vec::new();
    let mut i: usize = 0;
    while i < listeners.len()
        invariant
            i <= listeners.len(),
            r@ == without_listener(listeners@.take(i as int), l),
        decreases listeners.len() - i,
    {
        proof {
            assert(listeners@.take(i + 1).drop_last() =~= listeners@.take(i as int));
        }
        if listeners[i] != l {
            r.push(listeners[i]);
        }
        i = i + 1;
    }
    proof {
        assert(listeners@.take(i as int) =~= listeners@);
    }
    r
}

/// A buffer of pending events and, per event kind, the listeners that
/// subscribed to it.
pub struct EventQueue {
    events: Vec<Event>,
    loaded_listeners: Vec<ListenerId>,
    unloaded_listeners: Vec<ListenerId>,
}

impl EventQueue {
    /// Events pushed since the last dispatch, oldest first.
    pub closed spec fn pending(&self) -> Seq<Event> {
        self.events@
    }

    /// Listeners of `kind`, in registration order.
    pub closed spec fn listeners(&self, kind: EventType) -> Seq<ListenerId> {
        match kind {
            EventType::ChunkLoaded => self.loaded_listeners@,
            EventType::ChunkUnloaded => self.unloaded_listeners@,
        }
    }

    /// No listener appears twice for one kind.
    pub open spec fn wf(&self) -> bool {
        &&& self.listeners(EventType::ChunkLoaded).no_duplicates()
        &&& self.listeners(EventType::ChunkUnloaded).no_duplicates()
    }

    pub fn new() -> (r: EventQueue)
        ensures
            r.wf(),
            r.pending() == Seq::<Event>::empty(),
            r.listeners(EventType::ChunkLoaded) == Seq::<ListenerId>::empty(),
            r.listeners(EventType::ChunkUnloaded) == Seq::<ListenerId>::empty(),
    {
        EventQueue {
            events: Vec::new(),
            loaded_listeners: Vec::new(),
            unloaded_listeners: Vec::new(),
        }
    }

    /// Appends `event` to the pending buffer.
    pub fn push_event(&mut self, event: Event)
        ensures
            final(self).pending() == old(self).pending().push(event),
            forall|k: EventType| #[trigger] final(self).listeners(k) == old(self).listeners(k),
    {
        self.events.push(event);
    }

    /// Subscribes `listener` to each kind in `kinds`; a listener already
    /// subscribed to a kind stays where it is and is not added twice.
    pub fn register_handler(&mut self, listener: ListenerId, kinds: &Vec<EventType>)
        requires
            old(self).wf(),
        ensures
            final(self).wf(),
            final(self).pending() == old(self).pending(),
            forall|k: EventType|
                #[trigger] final(self).listeners(k) == with_listener(
                    old(self).listeners(k),
                    listener,
                    kinds@.contains(k),
                ),
    {
        let wants_loaded = contains_kind(kinds, EventType::ChunkLoaded);
        let wants_unloaded = contains_kind(kinds, EventType::ChunkUnloaded);
        add_listener(&mut self.loaded_listeners, listener, wants_loaded);
        add_listener(&mut self.unloaded_listeners, listener, wants_unloaded);
    }

    /// Unsubscribes `listener` from every kind; a listener that is not
    /// subscribed is left alone.
    pub fn deregister_handler(&mut self, listener: ListenerId)
        requires
            old(self).wf(),
        ensures
            final(self).wf(),
            final(self).pending() == old(self).pending(),
            forall|k: EventType|
                #[trigger] final(self).listeners(k) == without_listener(old(self).listeners(k), listener),
    {
        proof {
            lemma_without_listener(self.loaded_listeners@, listener);
            lemma_without_listener(self.unloaded_listeners@, listener);
        }
        self.loaded_listeners = remove_listener(&self.loaded_listeners, listener);
        self.unloaded_listeners = remove_listener(&self.unloaded_listeners, listener);
    }

    /// Hands out every pending event to the listeners of its kind, and
    /// empties the buffer. The deliveries come in push order, and for one
    /// event in registration order; an event whose kind has no listener is
    /// dropped.
    pub fn dispatch_events(&mut self) -> (r: Vec<(ListenerId, Event)>)
        ensures
            final(self).pending() == Seq::<Event>::empty(),
            forall|k: EventType| #[trigger] final(self).listeners(k) == old(self).listeners(k),
            r@ == deliveries(
                old(self).pending(),
                old(self).listeners(EventType::ChunkLoaded),
                old(self).listeners(EventType::ChunkUnloaded),
            ),
    {
        let mut r: Vec<(ListenerId, Event)> = Vec::new();
        let mut i: usize = 0;
        while i < self.events.len()
            invariant
                i <= self.events.len(),
                r@ == deliveries(
                    self.events@.take(i as int),
                    self.loaded_listeners@,
                    self.unloaded_listeners@,
                ),
            decreases self.events.len() - i,
        {
            let event = self.events[i];
            let listeners = match event {
                Event::ChunkLoaded(..) => &self.loaded_listeners,
                Event::ChunkUnloaded(..) => &self.unloaded_listeners,
            };
            let ghost start = r@;
            let mut j: usize = 0;
            while j < listeners.len()
                invariant
                    j <= listeners.len(),
                    r@ == start + addressed(listeners@.take(j as int), event),
                decreases listeners.len() - j,
            {
                r.push((listeners[j], event));
                proof {
                    assert(addressed(listeners@.take(j + 1), event) =~= addressed(
                        listeners@.take(j as int),
                        event,
                    ).push((listeners@[j as int], event)));
                }
                j = j + 1;
            }
            proof {
                assert(listeners@.take(j as int) =~= listeners@);
                assert(self.events@.take(i + 1).drop_last() =~= self.events@.take(i as int));
            }
            i = i + 1;
        }
        proof {
            assert(self.events@.take(i as int) =~= self.events@);
        }
        self.events = Vec::new();
        r
    }

    /// The pending events, oldest first.
    pub fn pending_events(&self) -> (r: &Vec<Event>)
        ensures
            r@ == self.pending(),
    {
        &self.events
    }

    /// The listeners of `kind`, in registration order.
    pub fn listeners_of(&self, kind: EventType) -> (r: &Vec<ListenerId>)
        ensures
            r@ == self.listeners(kind),
    {
        match kind {
            EventType::ChunkLoaded => &self.loaded_listeners,
            EventType::ChunkUnloaded => &self.unloaded_listeners,
        }
    }

    pub fn pending_count(&self) -> (r: usize)
        ensures
            r == self.pending().len(),
    {
        self.events.len()
    }
}

} // verus!
