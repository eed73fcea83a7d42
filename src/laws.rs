//! Properties of the registry that hold across several operations, stated
//! over the world model and proved from the contracts of the passes.
use vstd::prelude::*;
use crate::registry::{enqueue, StoreId};
use crate::value::PropertyValue;
use crate::world::{
    applied, declared, latest, materialized, placeholder, published, resolved, seeded,
    EventModel, WorldModel,
};

verus! {

/// One operation on a world: a resolve, a declaration, a publication, or
/// one of the three passes.
pub open spec fn step(w0: WorldModel, w1: WorldModel) -> bool {
    ||| exists|n: Seq<char>, r: Option<StoreId>| resolved(w0, n, w1, r)
    ||| exists|n: Seq<char>, id: crate::world::AccessId| declared(w0, n, w1, id)
    ||| exists|e: EventModel| published(w0, e, w1)
    ||| materialized(w0, w1)
    ||| seeded(w0, w1)
    ||| applied(w0, w1)
}

/// Resolving one name again and again leaves the world as resolving it once
/// did.
proof fn lemma_resolve_trace(trace: Seq<WorldModel>, n: Seq<char>, results: Seq<Option<StoreId>>, k: int)
    requires
        1 <= k < trace.len(),
        results.len() == trace.len() - 1,
        !trace[0].bound.contains_key(n),
        forall|i: int| 0 <= i < trace.len() - 1 ==> resolved(trace[i], n, trace[i + 1], results[i]),
    ensures
        trace[k] == (WorldModel { pending: enqueue(trace[0].pending, n), ..trace[0] }),
    decreases k,
{
    assert(resolved(trace[k - 1], n, trace[k], results[k - 1]));
    if k > 1 {
        lemma_resolve_trace(trace, n, results, k - 1);
        assert(enqueue(trace[0].pending, n).contains(n)) by {
            if !trace[0].pending.contains(n) {
                assert(enqueue(trace[0].pending, n)[trace[0].pending.len() as int] == n);
            }
        }
    }
}

/// Resolving an unbound name any number of times within one cycle, and then
/// materializing, creates exactly one store for it.
pub proof fn law_idempotent_creation(
    trace: Seq<WorldModel>,
    n: Seq<char>,
    results: Seq<Option<StoreId>>,
    w: WorldModel,
)
    requires
        trace.len() >= 2,
        trace[0].wf(),
        !trace[0].bound.contains_key(n),
        results.len() == trace.len() - 1,
        forall|i: int| 0 <= i < trace.len() - 1 ==> resolved(trace[i], n, trace[i + 1], results[i]),
        materialized(trace.last(), w),
    ensures
        w.bound.contains_key(n),
        forall|i: int| 0 <= i < w.stores.len() ==> (#[trigger] w.stores[i].name == n <==> i == w.bound[n].index),
{
    let w0 = trace[0];
    lemma_resolve_trace(trace, n, results, trace.len() - 1);
    let last = trace.last();
    let p = last.pending;
    assert(p == enqueue(w0.pending, n));
    let jn: int = if w0.pending.contains(n) {
        choose|j: int| 0 <= j < w0.pending.len() && w0.pending[j] == n
    } else {
        w0.pending.len() as int
    };
    assert(p[jn] == n);
    assert(p.no_duplicates()) by {
        if !w0.pending.contains(n) {
            assert forall|a: int, b: int| 0 <= a < p.len() && 0 <= b < p.len() && a != b implies p[a]
                != p[b] by {
                if a < w0.pending.len() && b < w0.pending.len() {
                } else if a < w0.pending.len() {
                    assert(w0.pending[a] == p[a]);
                } else {
                    assert(w0.pending[b] == p[b]);
                }
            }
        }
    }
    assert(p.contains(n));
    assert(w.bound[p[jn]].index == last.stores.len() + jn);
    assert forall|i: int| 0 <= i < w.stores.len() implies (#[trigger] w.stores[i].name == n <==> i
        == w.bound[n].index) by {
        if i < last.stores.len() {
            assert(w.stores[i] == last.stores[i]);
            assert(last.stores[i] == w0.stores[i]);
            assert(w0.bound.contains_key(w0.stores[i].name));
        } else {
            let j = i - last.stores.len();
            assert(w.stores[i] == placeholder(p[j]));
        }
    }
}

/// An access declared in the cycle in which its name is first resolved, or
/// for a name already bound, holds after the seeding pass exactly the value
/// of that name's store; for a name that was only queued that is `Absent`.
pub proof fn law_no_lost_initial_value(w0: WorldModel, w1: WorldModel, w2: WorldModel, a: int)
    requires
        w0.wf(),
        0 <= a < w0.accesses.len(),
        w0.accesses[a].fresh,
        w0.pending.contains(w0.accesses[a].name) || w0.bound.contains_key(w0.accesses[a].name),
        materialized(w0, w1),
        seeded(w1, w2),
    ensures
        w2.bound.contains_key(w0.accesses[a].name),
        w2.accesses[a].cache == w2.stores[w2.bound[w0.accesses[a].name].index as int].value,
        w0.pending.contains(w0.accesses[a].name) ==> w2.accesses[a].cache == PropertyValue::Absent,
{
    let n = w0.accesses[a].name;
    assert(w1.bound.contains_key(n));
    assert(w1.accesses[a] == w0.accesses[a]);
    assert(w2.accesses[a].cache == w1.stores[w1.bound[n].index as int].value);
    if w0.pending.contains(n) {
        let j = choose|j: int| 0 <= j < w0.pending.len() && w0.pending[j] == n;
        assert(w1.bound[w0.pending[j]].index == w0.stores.len() + j);
        assert(w1.stores[w0.stores.len() + j] == placeholder(w0.pending[j]));
    }
}

/// Of two updates published in turn for one name within a cycle, the later
/// one is what every store and every access of that name holds after the
/// event pass.
pub proof fn law_last_write_wins(
    w0: WorldModel,
    w1: WorldModel,
    w2: WorldModel,
    w3: WorldModel,
    n: Seq<char>,
    first: PropertyValue,
    second: PropertyValue,
)
    requires
        published(w0, EventModel { name: n, value: first }, w1),
        published(w1, EventModel { name: n, value: second }, w2),
        applied(w2, w3),
    ensures
        forall|i: int| 0 <= i < w3.stores.len() && #[trigger] w3.stores[i].name == n ==> w3.stores[i].value == second,
        forall|i: int|
            0 <= i < w3.accesses.len() && #[trigger] w3.accesses[i].name == n ==> w3.accesses[i].cache == second,
{
    assert(latest(w2.events, n) == Some(second));
}

/// An update published for one name changes no store and no access of any
/// other name: after the event pass they hold what they would hold had it
/// never been published.
pub proof fn law_isolation(
    w0: WorldModel,
    w1: WorldModel,
    with_it: WorldModel,
    without_it: WorldModel,
    e: EventModel,
    other: Seq<char>,
)
    requires
        other != e.name,
        published(w0, e, w1),
        applied(w1, with_it),
        applied(w0, without_it),
    ensures
        forall|i: int|
            0 <= i < with_it.stores.len() && #[trigger] with_it.stores[i].name == other ==> with_it.stores[i]
                == without_it.stores[i],
        forall|i: int|
            0 <= i < with_it.accesses.len() && #[trigger] with_it.accesses[i].name == other
                ==> with_it.accesses[i] == without_it.accesses[i],
{
    assert(w1.events.drop_last() =~= w0.events);
    assert(latest(w1.events, other) == latest(w0.events, other));
}

/// No operation unbinds a name or binds it to another store.
proof fn lemma_step_keeps_binding(w0: WorldModel, w1: WorldModel, n: Seq<char>)
    requires
        step(w0, w1),
        w0.bound.contains_key(n),
    ensures
        w1.bound.contains_key(n),
        w1.bound[n] == w0.bound[n],
{
    if exists|m: Seq<char>, r: Option<StoreId>| resolved(w0, m, w1, r) {
        let (m, r) = choose|m: Seq<char>, r: Option<StoreId>| resolved(w0, m, w1, r);
        assert(w1.bound == w0.bound);
    } else if exists|m: Seq<char>, id: crate::world::AccessId| declared(w0, m, w1, id) {
        let (m, id) = choose|m: Seq<char>, id: crate::world::AccessId| declared(w0, m, w1, id);
        assert(w1.bound == w0.bound);
    } else if exists|e: EventModel| published(w0, e, w1) {
        let e = choose|e: EventModel| published(w0, e, w1);
        assert(w1.bound == w0.bound);
    }
}

/// Once a store is bound for a name, the name stays bound to that same store
/// for the rest of the run.
pub proof fn law_monotonic_existence(run: Seq<WorldModel>, i: int, j: int, n: Seq<char>)
    requires
        forall|k: int| 0 <= k < run.len() - 1 ==> step(#[trigger] run[k], run[k + 1]),
        0 <= i <= j < run.len(),
        run[i].bound.contains_key(n),
    ensures
        run[j].bound.contains_key(n),
        run[j].bound[n] == run[i].bound[n],
    decreases j - i,
{
    if j > i {
        law_monotonic_existence(run, i, j - 1, n);
        lemma_step_keeps_binding(run[j - 1], run[j], n);
    }
}

} // verus!
