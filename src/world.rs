//! The property world: the registry together with the stores it indexes,
//! the accesses that consumers hold, and the events published this cycle,
//! driven by the three passes of an update cycle.
use vstd::prelude::*;
use crate::registry::{enqueue, views_of, PropertyRegistry, StoreId};
use crate::value::{PropertyAccess, PropertyUpdateEvent, PropertyValue};

verus! {

/// The identity of an access: its position among the accesses.
#[derive(Clone, Copy, Debug, PartialEq, Eq)]
pub struct AccessId {
    pub index: usize,
}

/// One storage cell: a property's name and its current value.
pub struct PropertyStore {
    pub name: String,
    pub value: PropertyValue,
}

/// An access together with the name it reads and whether it still waits
/// for its first value.
struct AccessSlot {
    name: String,
    access: PropertyAccess,
    fresh: bool,
}

/// A store as the contracts see it.
pub struct StoreModel {
    pub name: Seq<char>,
    pub value: PropertyValue,
}

/// An access as the contracts see it.
pub struct AccessModel {
    pub name: Seq<char>,
    pub cache: PropertyValue,
    /// Attached since the last seeding pass, and not seeded yet.
    pub fresh: bool,
}

/// A published update as the contracts see it.
pub struct EventModel {
    pub name: Seq<char>,
    pub value: PropertyValue,
}

/// The state of a world as the passes see it.
pub struct WorldModel {
    pub bound: Map<Seq<char>, StoreId>,
    pub pending: Seq<Seq<char>>,
    pub stores: Seq<StoreModel>,
    pub accesses: Seq<AccessModel>,
    pub events: Seq<EventModel>,
}

impl View for PropertyStore {
    type V = StoreModel;

    open spec fn view(&self) -> StoreModel {
        StoreModel { name: self.name@, value: self.value }
    }
}

impl View for AccessSlot {
    type V = AccessModel;

    closed spec fn view(&self) -> AccessModel {
        AccessModel { name: self.name@, cache: self.access.cache, fresh: self.fresh }
    }
}

impl View for PropertyUpdateEvent {
    type V = EventModel;

    open spec fn view(&self) -> EventModel {
        EventModel { name: self.name@, value: self.value }
    }
}

impl WorldModel {
    /// One store per bound name, each bound to the store that carries its
    /// name; the queue holds each name once and no bound name.
    pub open spec fn wf(self) -> bool {
        &&& forall|k: Seq<char>|
            #[trigger] self.bound.contains_key(k) ==> {
                &&& self.bound[k].index < self.stores.len()
                &&& self.stores[self.bound[k].index as int].name == k
            }
        &&& forall|i: int|
            0 <= i < self.stores.len() ==> {
                &&& self.bound.contains_key(#[trigger] self.stores[i].name)
                &&& self.bound[self.stores[i].name].index == i
            }
        &&& self.pending.no_duplicates()
        &&& forall|i: int|
            0 <= i < self.pending.len() ==> !self.bound.contains_key(#[trigger] self.pending[i])
    }
}

/// The value an access attached to `n` starts from: its store's value, or
/// `Absent` while no store is bound.
pub open spec fn seed_value(w: WorldModel, n: Seq<char>) -> PropertyValue {
    if w.bound.contains_key(n) {
        w.stores[w.bound[n].index as int].value
    } else {
        PropertyValue::Absent
    }
}

/// The value of the last event for `n`, if there is one.
pub open spec fn latest(events: Seq<EventModel>, n: Seq<char>) -> Option<PropertyValue>
    decreases events.len(),
{
    if events.len() == 0 {
        None
    } else if events.last().name == n {
        Some(events.last().value)
    } else {
        latest(events.drop_last(), n)
    }
}

/// What a store or cache of `n` holding `v` holds after `events`.
pub open spec fn after_events(events: Seq<EventModel>, n: Seq<char>, v: PropertyValue) -> PropertyValue {
    match latest(events, n) {
        Some(u) => u,
        None => v,
    }
}

/// An access after the seeding pass of world `w`.
pub open spec fn seeded_access(w: WorldModel, a: AccessModel) -> AccessModel {
    if a.fresh {
        AccessModel { name: a.name, cache: seed_value(w, a.name), fresh: false }
    } else {
        a
    }
}

/// The queue after the seeding pass has asked for the names of the fresh
/// accesses among `accs` that are not bound, in order.
pub open spec fn seed_pending(
    bound: Map<Seq<char>, StoreId>,
    p: Seq<Seq<char>>,
    accs: Seq<AccessModel>,
) -> Seq<Seq<char>>
    decreases accs.len(),
{
    if accs.len() == 0 {
        p
    } else {
        let q = seed_pending(bound, p, accs.drop_last());
        if accs.last().fresh && !bound.contains_key(accs.last().name) {
            enqueue(q, accs.last().name)
        } else {
            q
        }
    }
}

/// `resolve(n)` took `w0` to `w1` and returned `r`.
pub open spec fn resolved(w0: WorldModel, n: Seq<char>, w1: WorldModel, r: Option<StoreId>) -> bool {
    if w0.bound.contains_key(n) {
        r == Some(w0.bound[n]) && w1 == w0
    } else {
        r.is_none() && w1 == (WorldModel { pending: enqueue(w0.pending, n), ..w0 })
    }
}

/// `declare(n)` took `w0` to `w1` and returned `id`.
pub open spec fn declared(w0: WorldModel, n: Seq<char>, w1: WorldModel, id: AccessId) -> bool {
    &&& id.index == w0.accesses.len()
    &&& w1 == (WorldModel {
        accesses: w0.accesses.push(AccessModel { name: n, cache: PropertyValue::Absent, fresh: true }),
        ..w0
    })
}

/// `publish(e)` took `w0` to `w1`.
pub open spec fn published(w0: WorldModel, e: EventModel, w1: WorldModel) -> bool {
    w1 == (WorldModel { events: w0.events.push(e), ..w0 })
}

/// The store that the materializing pass creates for `n`.
pub open spec fn placeholder(n: Seq<char>) -> StoreModel {
    StoreModel { name: n, value: PropertyValue::Absent }
}

/// The materializing pass took `w0` to `w1`: each queued name got a new
/// store holding `Absent`, in queue order, and was bound to it.
pub open spec fn materialized(w0: WorldModel, w1: WorldModel) -> bool {
    &&& w1.stores == w0.stores + w0.pending.map_values(|n: Seq<char>| placeholder(n))
    &&& w1.pending == Seq::<Seq<char>>::empty()
    &&& w1.accesses == w0.accesses
    &&& w1.events == w0.events
    &&& forall|k: Seq<char>|
        #[trigger] w1.bound.contains_key(k) <==> (w0.bound.contains_key(k) || w0.pending.contains(k))
    &&& forall|k: Seq<char>| #[trigger] w0.bound.contains_key(k) ==> w1.bound[k] == w0.bound[k]
    &&& forall|j: int|
        0 <= j < w0.pending.len() ==> w1.bound[#[trigger] w0.pending[j]].index == w0.stores.len() + j
}

/// The seeding pass took `w0` to `w1`: every fresh access got its store's
/// value, or `Absent` with its name queued when no store is bound.
pub open spec fn seeded(w0: WorldModel, w1: WorldModel) -> bool {
    &&& w1.bound == w0.bound
    &&& w1.stores == w0.stores
    &&& w1.events == w0.events
    &&& w1.accesses == w0.accesses.map_values(|a: AccessModel| seeded_access(w0, a))
    &&& w1.pending == seed_pending(w0.bound, w0.pending, w0.accesses)
}

/// The event pass took `w0` to `w1`: every store and every access took the
/// value of the last event for its name, and the events were discarded.
pub open spec fn applied(w0: WorldModel, w1: WorldModel) -> bool {
    &&& w1.bound == w0.bound
    &&& w1.pending == w0.pending
    &&& w1.events == Seq::<EventModel>::empty()
    &&& w1.stores == w0.stores.map_values(
        |s: StoreModel| StoreModel { name: s.name, value: after_events(w0.events, s.name, s.value) },
    )
    &&& w1.accesses == w0.accesses.map_values(
        |a: AccessModel|
            AccessModel { name: a.name, cache: after_events(w0.events, a.name, a.cache), fresh: a.fresh },
    )
}

/// One whole cycle, the three passes in order, took `w0` to `w3`.
pub open spec fn cycled(w0: WorldModel, w3: WorldModel) -> bool {
    exists|w1: WorldModel, w2: WorldModel|
        materialized(w0, w1) && seeded(w1, w2) && applied(w2, w3)
}

/// No two events of `s` share a name.
pub open spec fn distinct_names(s: Seq<EventModel>) -> bool {
    forall|i: int, j: int| 0 <= i < s.len() && 0 <= j < s.len() && i != j ==> s[i].name != s[j].name
}

/// The models of a sequence of updates.
pub open spec fn event_views(v: Seq<PropertyUpdateEvent>) -> Seq<EventModel> {
    v.map_values(|e: PropertyUpdateEvent| e@)
}

/// The last event of a sequence whose names are distinct is the only one
/// for its name.
proof fn lemma_latest_distinct(s: Seq<EventModel>, j: int)
    requires
        distinct_names(s),
        0 <= j < s.len(),
    ensures
        latest(s, s[j].name) == Some(s[j].value),
    decreases s.len(),
{
    if j != s.len() - 1 {
        lemma_latest_distinct(s.drop_last(), j);
    }
}

/// Without an event for `n` there is no latest one.
proof fn lemma_latest_none(s: Seq<EventModel>, n: Seq<char>)
    requires
        forall|i: int| 0 <= i < s.len() ==> #[trigger] s[i].name != n,
    ensures
        latest(s, n).is_none(),
    decreases s.len(),
{
    if s.len() > 0 {
        lemma_latest_none(s.drop_last(), n);
    }
}

/// Two sequences with the same names, and the same values wherever the
/// name is `n`, have the same latest value for `n`.
proof fn lemma_latest_agree(a: Seq<EventModel>, b: Seq<EventModel>, n: Seq<char>)
    requires
        a.len() == b.len(),
        forall|i: int| 0 <= i < a.len() ==> #[trigger] a[i].name == b[i].name,
        forall|i: int| 0 <= i < a.len() && a[i].name == n ==> #[trigger] a[i].value == b[i].value,
    ensures
        latest(a, n) == latest(b, n),
    decreases a.len(),
{
    if a.len() > 0 {
        lemma_latest_agree(a.drop_last(), b.drop_last(), n);
    }
}

/// The position of the update for `name` among `updates`, if there is one.
fn find_update(updates: &Vec<PropertyUpdateEvent>, name: &String) -> (r: Option<usize>)
    requires
        distinct_names(event_views(updates@)),
    ensures
        match r {
            Some(j) => j < updates@.len() && updates@[j as int].name@ == name@ && latest(
                event_views(updates@),
                name@,
            ) == Some(updates@[j as int].value),
            None => {
                &&& latest(event_views(updates@), name@).is_none()
                &&& forall|j: int| 0 <= j < updates@.len() ==> updates@[j].name@ != name@
            },
        },
{
    let ghost s = event_views(updates@);
    let mut i: usize = 0;
    while i < updates.len()
        invariant
            s == event_views(updates@),
            distinct_names(s),
            i <= updates@.len(),
            forall|j: int| 0 <= j < i ==> updates@[j].name@ != name@,
        decreases updates@.len() - i,
    {
        if updates[i].name == *name {
            proof {
                lemma_latest_distinct(s, i as int);
            }
            return Some(i);
        }
        i += 1;
    }
    proof {
        assert forall|j: int| 0 <= j < s.len() implies #[trigger] s[j].name != name@ by {
            assert(s[j] == updates@[j]@);
        }
        lemma_latest_none(s, name@);
    }
    None
}

/// The cycle's events folded into one update per name, each holding the
/// value of the last event for that name.
fn collect_updates(events: &Vec<PropertyUpdateEvent>) -> (r: Vec<PropertyUpdateEvent>)
    ensures
        distinct_names(event_views(r@)),
        forall|n: Seq<char>| latest(event_views(r@), n) == latest(event_views(events@), n),
{
    let ghost ev = event_views(events@);
    let mut r: Vec<PropertyUpdateEvent> = Vec::new();
    let mut i: usize = 0;
    while i < events.len()
        invariant
            ev == event_views(events@),
            i <= events@.len(),
            distinct_names(event_views(r@)),
            forall|n: Seq<char>| latest(event_views(r@), n) == latest(ev.take(i as int), n),
        decreases events@.len() - i,
    {
        let ghost before = event_views(r@);
        let value = events[i].value.duplicate();
        match find_update(&r, &events[i].name) {
            Some(j) => {
                r[j].value = value;
                proof {
                    let after = event_views(r@);
                    assert(after == before.update(j as int, after[j as int]));
                    assert forall|a: int, b: int|
                        0 <= a < after.len() && 0 <= b < after.len() && a != b implies after[a].name
                        != after[b].name by {
                        assert(before[a].name == after[a].name);
                        assert(before[b].name == after[b].name);
                    }
                    assert forall|n: Seq<char>| latest(after, n) == latest(ev.take(i + 1), n) by {
                        assert(ev.take(i + 1).drop_last() =~= ev.take(i as int));
                        if n == ev[i as int].name {
                            lemma_latest_distinct(after, j as int);
                        } else {
                            lemma_latest_agree(after, before, n);
                        }
                    }
                }
            },
            None => {
                let name = events[i].name.clone();
                r.push(PropertyUpdateEvent::new(name, value));
                proof {
                    let after = event_views(r@);
                    assert(after =~= before.push(ev[i as int]));
                    assert(after.drop_last() =~= before);
                    assert forall|a: int, b: int|
                        0 <= a < after.len() && 0 <= b < after.len() && a != b implies after[a].name
                        != after[b].name by {
                        if a < before.len() && b < before.len() {
                            assert(before[a] == after[a] && before[b] == after[b]);
                        } else if a < before.len() {
                            assert(before[a] == after[a]);
                            assert(before[a] == r@[a]@);
                        } else {
                            assert(before[b] == after[b]);
                            assert(before[b] == r@[b]@);
                        }
                    }
                    assert forall|n: Seq<char>| latest(after, n) == latest(ev.take(i + 1), n) by {
                        assert(ev.take(i + 1).drop_last() =~= ev.take(i as int));
                        assert(after.last() == ev[i as int]);
                        assert(ev.take(i + 1).last() == ev[i as int]);
                        assert(latest(before, n) == latest(ev.take(i as int), n));
                    }
                }
            },
        }
        i += 1;
    }
    assert(ev.take(events@.len() as int) =~= ev);
    r
}

/// The single context object that the passes run on: the registry, the
/// stores it indexes, the accesses consumers hold, and this cycle's events.
pub struct PropertyWorld {
    registry: PropertyRegistry,
    stores: Vec<PropertyStore>,
    accesses: Vec<AccessSlot>,
    events: Vec<PropertyUpdateEvent>,
}

impl View for PropertyWorld {
    type V = WorldModel;

    closed spec fn view(&self) -> WorldModel {
        WorldModel {
            bound: self.registry.bound(),
            pending: self.registry.pending(),
            stores: self.stores@.map_values(|s: PropertyStore| s@),
            accesses: self.accesses@.map_values(|a: AccessSlot| a@),
            events: event_views(self.events@),
        }
    }
}

impl PropertyWorld {
    /// The registry is well formed and agrees with the stores.
    pub closed spec fn wf(&self) -> bool {
        self.registry.wf() && self@.wf()
    }

    /// A world with no store, no access and no event.
    pub fn new() -> (r: PropertyWorld)
        ensures
            r.wf(),
            r@.bound == Map::<Seq<char>, StoreId>::empty(),
            r@.pending == Seq::<Seq<char>>::empty(),
            r@.stores == Seq::<StoreModel>::empty(),
            r@.accesses == Seq::<AccessModel>::empty(),
            r@.events == Seq::<EventModel>::empty(),
    {
        let r = PropertyWorld {
            registry: PropertyRegistry::new(),
            stores: Vec::new(),
            accesses: Vec::new(),
            events: Vec::new(),
        };
        assert(r@.stores =~= Seq::<StoreModel>::empty());
        assert(r@.accesses =~= Seq::<AccessModel>::empty());
        assert(r@.events =~= Seq::<EventModel>::empty());
        r
    }

    /// The store bound to `name`; when there is none yet, `name` is queued
    /// for the next materializing pass and `None` comes back.
    pub fn resolve(&mut self, name: &str) -> (r: Option<StoreId>)
        requires
            old(self).wf(),
        ensures
            final(self).wf(),
            resolved(old(self)@, name@, final(self)@, r),
    {
        proof {
            self.registry.lemma_pending_unbound();
        }
        let r = self.registry.get(name);
        proof {
            self.registry.lemma_pending_unbound();
        }
        assert(self@ =~= (if old(self)@.bound.contains_key(name@) {
            old(self)@
        } else {
            WorldModel { pending: enqueue(old(self)@.pending, name@), ..old(self)@ }
        }));
        r
    }

    /// Declares interest in `name`: a new access, which the next seeding
    /// pass gives its first value.
    pub fn declare(&mut self, name: &str) -> (r: AccessId)
        requires
            old(self).wf(),
        ensures
            final(self).wf(),
            declared(old(self)@, name@, final(self)@, r),
    {
        let r = AccessId { index: self.accesses.len() };
        let slot = AccessSlot { name: name.to_owned(), access: PropertyAccess::default(), fresh: true };
        self.accesses.push(slot);
        assert(self@.accesses =~= old(self)@.accesses.push(
            AccessModel { name: name@, cache: PropertyValue::Absent, fresh: true },
        ));
        r
    }

    /// Publishes an update, applied by the next event pass.
    pub fn publish(&mut self, event: PropertyUpdateEvent)
        requires
            old(self).wf(),
        ensures
            final(self).wf(),
            published(old(self)@, event@, final(self)@),
    {
        let ghost e = event@;
        self.events.push(event);
        assert(self@.events =~= old(self)@.events.push(e));
    }

    /// The value that access `id` holds.
    pub fn read(&self, id: AccessId) -> (r: &PropertyValue)
        requires
            id.index < self@.accesses.len(),
        ensures
            *r == self@.accesses[id.index as int].cache,
    {
        &self.accesses[id.index].access.cache
    }

    /// The value that store `id` holds.
    pub fn store_value(&self, id: StoreId) -> (r: &PropertyValue)
        requires
            id.index < self@.stores.len(),
        ensures
            *r == self@.stores[id.index as int].value,
    {
        &self.stores[id.index].value
    }

    /// The store bound to `name`, without queueing anything.
    pub fn lookup(&self, name: &str) -> (r: Option<StoreId>)
        requires
            self.wf(),
        ensures
            r == (if self@.bound.contains_key(name@) {
                Some(self@.bound[name@])
            } else {
                None
            }),
    {
        self.registry.lookup(name)
    }

    /// The materializing pass: every queued name gets a new store holding
    /// `Absent` and is bound to it; the queue is consumed whole.
    pub fn create_pending(&mut self)
        requires
            old(self).wf(),
        ensures
            final(self).wf(),
            materialized(old(self)@, final(self)@),
    {
        let ghost w0 = self@;
        proof {
            self.registry.lemma_pending_unbound();
        }
        let names = self.registry.take_pending();
        let ghost p = w0.pending;
        let mut i: usize = 0;
        while i < names.len()
            invariant
                self.registry.wf(),
                i <= names@.len(),
                views_of(names@) == p,
                p == w0.pending,
                w0.wf(),
                self@.pending == Seq::<Seq<char>>::empty(),
                self@.accesses == w0.accesses,
                self@.events == w0.events,
                self@.stores == w0.stores + p.take(i as int).map_values(|n: Seq<char>| placeholder(n)),
                forall|k: Seq<char>|
                    #[trigger] self@.bound.contains_key(k) <==> (w0.bound.contains_key(k) || p.take(
                        i as int,
                    ).contains(k)),
                forall|k: Seq<char>| #[trigger] w0.bound.contains_key(k) ==> self@.bound[k] == w0.bound[k],
                forall|j: int|
                    0 <= j < i ==> self@.bound.contains_key(#[trigger] p[j]) && self@.bound[p[j]].index
                        == w0.stores.len() + j,
                self@.wf(),
            decreases names@.len() - i,
        {
            let ghost before = self@;
            let ghost n = p[i as int];
            assert(names@[i as int]@ == n);
            assert(!before.bound.contains_key(n)) by {
                if p.take(i as int).contains(n) {
                    let j = choose|j: int| 0 <= j < i && #[trigger] p.take(i as int)[j] == n;
                    assert(p[j] == p[i as int]);
                }
            }
            let id = StoreId { index: self.stores.len() };
            let store_name = names[i].clone();
            assert(store_name@ == n);
            let store = PropertyStore { name: store_name, value: PropertyValue::Absent };
            assert(store@ == StoreModel { name: n, value: PropertyValue::Absent });
            let ghost stores_before = self.stores@;
            self.stores.push(store);
            assert(self.stores@ == stores_before.push(store));
            let bound_now = self.registry.bind(names[i].clone(), id);
            assert(bound_now);
            proof {
                Seq::<Seq<char>>::empty().index_of_first_ensures(n);
                assert(self@.pending =~= Seq::<Seq<char>>::empty());
                assert(p.take(i + 1) =~= p.take(i as int).push(n));
                assert(p.take(i + 1).map_values(|n: Seq<char>| placeholder(n)) =~= p.take(i as int).map_values(
                    |n: Seq<char>| placeholder(n),
                ).push(placeholder(n)));
                assert(self@.stores =~= before.stores.push(placeholder(n)));
                assert forall|k: Seq<char>|
                    #[trigger] self@.bound.contains_key(k) <==> (w0.bound.contains_key(k) || p.take(
                        i + 1,
                    ).contains(k)) by {
                    if p.take(i as int).contains(k) {
                        let j = choose|j: int| 0 <= j < i && #[trigger] p.take(i as int)[j] == k;
                        assert(p.take(i + 1)[j] == k);
                    }
                    if p.take(i + 1).contains(k) && k != n {
                        let j = choose|j: int| 0 <= j < i + 1 && #[trigger] p.take(i + 1)[j] == k;
                        assert(p.take(i as int)[j] == k);
                    }
                    assert(p.take(i + 1)[i as int] == n);
                }
                assert forall|j: int| 0 <= j < i + 1 implies self@.bound.contains_key(#[trigger] p[j])
                    && self@.bound[p[j]].index == w0.stores.len() + j by {
                    if j < i {
                        assert(p[j] != n);
                        assert(p.take(i as int)[j] == p[j]);
                    }
                }
                assert forall|k: Seq<char>| #[trigger] self@.bound.contains_key(k) implies {
                    &&& self@.bound[k].index < self@.stores.len()
                    &&& self@.stores[self@.bound[k].index as int].name == k
                } by {
                    if k != n {
                        assert(before.bound.contains_key(k));
                    }
                }
                assert forall|j: int| 0 <= j < self@.stores.len() implies {
                    &&& self@.bound.contains_key(#[trigger] self@.stores[j].name)
                    &&& self@.bound[self@.stores[j].name].index == j
                } by {
                    if j < before.stores.len() {
                        assert(self@.stores[j] == before.stores[j]);
                        assert(before.bound.contains_key(before.stores[j].name));
                        assert(before.stores[j].name != n);
                    }
                }
            }
            i += 1;
        }
        proof {
            assert(p.take(p.len() as int) =~= p);
        }
    }

    /// The seeding pass: every access attached since the last one takes the
    /// current value of its store, or `Absent` while there is none, in which
    /// case its name is queued just as `resolve` would queue it.
    pub fn detect_change(&mut self)
        requires
            old(self).wf(),
        ensures
            final(self).wf(),
            seeded(old(self)@, final(self)@),
    {
        let ghost w0 = self@;
        let mut i: usize = 0;
        while i < self.accesses.len()
            invariant
                self.registry.wf(),
                self@.wf(),
                w0.wf(),
                i <= self@.accesses.len(),
                self@.bound == w0.bound,
                self@.stores == w0.stores,
                self@.events == w0.events,
                self@.accesses.len() == w0.accesses.len(),
                forall|j: int|
                    0 <= j < i ==> #[trigger] self@.accesses[j] == seeded_access(w0, w0.accesses[j]),
                forall|j: int| i <= j < self@.accesses.len() ==> #[trigger] self@.accesses[j] == w0.accesses[j],
                self@.pending == seed_pending(w0.bound, w0.pending, w0.accesses.take(i as int)),
            decreases self@.accesses.len() - i,
        {
            let ghost before = self@;
            let ghost a = w0.accesses[i as int];
            assert(self@.accesses[i as int] == a);
            assert(self.accesses@[i as int]@ == a);
            assert(w0.accesses.take(i + 1).drop_last() =~= w0.accesses.take(i as int));
            assert(w0.accesses.take(i + 1).last() == a);
            if self.accesses[i].fresh {
                let initial = match self.registry.get(self.accesses[i].name.as_str()) {
                    Some(id) => self.stores[id.index].value.duplicate(),
                    None => PropertyValue::Absent,
                };
                assert(initial == seed_value(w0, a.name));
                self.accesses[i].access.cache = initial;
                self.accesses[i].fresh = false;
                proof {
                    self.registry.lemma_pending_unbound();
                }
            }
            proof {
                assert forall|j: int| 0 <= j < self@.accesses.len() && j != i implies #[trigger] self@.accesses[j]
                    == before.accesses[j] by {
                    assert(self@.accesses[j] == self.accesses@[j]@);
                }
                assert(self@.accesses[i as int] == seeded_access(w0, a));
            }
            i += 1;
        }
        proof {
            assert(w0.accesses.take(w0.accesses.len() as int) =~= w0.accesses);
            assert(self@.accesses =~= w0.accesses.map_values(|a: AccessModel| seeded_access(w0, a)));
        }
    }

    /// The event pass: the cycle's events are folded into one value per
    /// name, the last one published winning; every store and then every
    /// access of such a name takes that value, and the events are dropped.
    pub fn update_event_listener(&mut self)
        requires
            old(self).wf(),
        ensures
            final(self).wf(),
            applied(old(self)@, final(self)@),
    {
        let ghost w0 = self@;
        let updates = collect_updates(&self.events);
        let mut i: usize = 0;
        while i < self.stores.len()
            invariant
                self.registry.wf(),
                w0.wf(),
                distinct_names(event_views(updates@)),
                forall|n: Seq<char>| latest(event_views(updates@), n) == latest(w0.events, n),
                i <= self@.stores.len(),
                self@.bound == w0.bound,
                self@.pending == w0.pending,
                self@.events == w0.events,
                self@.accesses == w0.accesses,
                self@.stores.len() == w0.stores.len(),
                forall|j: int|
                    0 <= j < i ==> #[trigger] self@.stores[j] == (StoreModel {
                        name: w0.stores[j].name,
                        value: after_events(w0.events, w0.stores[j].name, w0.stores[j].value),
                    }),
                forall|j: int| i <= j < self@.stores.len() ==> #[trigger] self@.stores[j] == w0.stores[j],
            decreases self@.stores.len() - i,
        {
            let ghost before = self@;
            assert(self@.stores[i as int] == w0.stores[i as int]);
            assert(self.stores@[i as int]@ == w0.stores[i as int]);
            match find_update(&updates, &self.stores[i].name) {
                Some(j) => {
                    self.stores[i].value = updates[j].value.duplicate();
                },
                None => {},
            }
            proof {
                assert forall|j: int| 0 <= j < self@.stores.len() && j != i implies #[trigger] self@.stores[j]
                    == before.stores[j] by {
                    assert(self@.stores[j] == self.stores@[j]@);
                }
            }
            i += 1;
        }
        let mut i: usize = 0;
        while i < self.accesses.len()
            invariant
                self.registry.wf(),
                w0.wf(),
                distinct_names(event_views(updates@)),
                forall|n: Seq<char>| latest(event_views(updates@), n) == latest(w0.events, n),
                i <= self@.accesses.len(),
                self@.bound == w0.bound,
                self@.pending == w0.pending,
                self@.events == w0.events,
                self@.stores =~= w0.stores.map_values(
                    |s: StoreModel| StoreModel { name: s.name, value: after_events(w0.events, s.name, s.value) },
                ),
                self@.accesses.len() == w0.accesses.len(),
                forall|j: int|
                    0 <= j < i ==> #[trigger] self@.accesses[j] == (AccessModel {
                        name: w0.accesses[j].name,
                        cache: after_events(w0.events, w0.accesses[j].name, w0.accesses[j].cache),
                        fresh: w0.accesses[j].fresh,
                    }),
                forall|j: int| i <= j < self@.accesses.len() ==> #[trigger] self@.accesses[j] == w0.accesses[j],
            decreases self@.accesses.len() - i,
        {
            let ghost before = self@;
            assert(self@.accesses[i as int] == w0.accesses[i as int]);
            assert(self.accesses@[i as int]@ == w0.accesses[i as int]);
            match find_update(&updates, &self.accesses[i].name) {
                Some(j) => {
                    self.accesses[i].access.cache = updates[j].value.duplicate();
                },
                None => {},
            }
            proof {
                assert forall|j: int| 0 <= j < self@.accesses.len() && j != i implies #[trigger] self@.accesses[j]
                    == before.accesses[j] by {
                    assert(self@.accesses[j] == self.accesses@[j]@);
                }
            }
            i += 1;
        }
        self.events = Vec::new();
        proof {
            assert(self@.events =~= Seq::<EventModel>::empty());
            assert(self@.accesses =~= w0.accesses.map_values(
                |a: AccessModel|
                    AccessModel { name: a.name, cache: after_events(w0.events, a.name, a.cache), fresh: a.fresh },
            ));
        }
    }

    /// One whole cycle: materialize, seed, apply, in that order.
    pub fn run_cycle(&mut self)
        requires
            old(self).wf(),
        ensures
            final(self).wf(),
            cycled(old(self)@, final(self)@),
    {
        let ghost w0 = self@;
        self.create_pending();
        let ghost w1 = self@;
        self.detect_change();
        let ghost w2 = self@;
        self.update_event_listener();
        assert(materialized(w0, w1) && seeded(w1, w2) && applied(w2, self@));
    }

    /// The number of stores.
    pub fn store_count(&self) -> (r: usize)
        ensures
            r == self@.stores.len(),
    {
        self.stores.len()
    }
}

impl Default for PropertyWorld {
    fn default() -> (r: PropertyWorld)
        ensures
            r.wf(),
            r@.bound == Map::<Seq<char>, StoreId>::empty(),
            r@.pending == Seq::<Seq<char>>::empty(),
            r@.stores == Seq::<StoreModel>::empty(),
            r@.accesses == Seq::<AccessModel>::empty(),
            r@.events == Seq::<EventModel>::empty(),
    {
        PropertyWorld::new()
    }
}

} // verus!
