//! Chained tunnel transfers, resolved in dependency order.
//!
//! A tunnel is fed by whatever entity stands on the cell behind it (against
//! its facing direction). Feeding chains form a directed graph that may
//! contain cycles, so every tick the resolver rebuilds the graph,
//! topologically sorts it — each fed tunnel is ticked before its feeder, so
//! an item moves at most one hop per tick — and detects leftovers. When the
//! graph has a cycle the whole tunnel pass is skipped for this tick: a
//! stalled frame is judged safer than an order-ambiguous transfer.

use vstd::prelude::*;

use vstd::set_lib::lemma_len_subset;
use vstd::set_lib::lemma_int_range;
use vstd::set_lib::set_int_range;

use crate::inventory::first_from;
use crate::inventory::VerifyOperation;
use crate::items::EntityId;
use crate::store::frame_preserved;
use crate::store::lemma_run_rel_snoc;
use crate::store::run_rel;
use crate::store::EntityData;
use crate::store::Store;
use crate::entity::id_at;

verus! {

/// The entity feeding tunnel `i`: the one on the cell behind the tunnel,
/// against its facing direction — provided `i` is a ticking tunnel standing
/// on the grid.
pub open spec fn tunnel_feeder(s: Store, i: int) -> Option<EntityId> {
    let e = s.entities@[i];
    match (e.data, e.position) {
        (EntityData::Tunnel(_, direction, _), Some(p)) => if e.ticking {
            match p.move_by_spec(direction.flip_spec(), 1) {
                Some(cell) => s.world.cell(cell).entity_spec(),
                None => None,
            }
        } else {
            None
        },
        _ => None,
    }
}

/// The tick-ordering edge: tunnel `t` must be ticked before `u` whenever
/// `u` feeds `t`, so that `t` forwards its old stack before `u` refills it.
pub open spec fn edge(s: Store, t: int, u: int) -> bool {
    0 <= t < s.entities@.len() && match tunnel_feeder(s, t) {
        Some(f) => f.index == u,
        None => false,
    }
}

/// Whether entity `v` takes part in the tunnel graph, as a fed tunnel or as
/// a feeder.
pub open spec fn in_graph(s: Store, v: int) -> bool {
    0 <= v < s.entities@.len() && ((tunnel_feeder(s, v) is Some) || exists|t: int| edge(s, t, v))
}

/// A directed cycle in the tunnel graph.
pub open spec fn is_cycle(s: Store, c: Seq<int>) -> bool {
    &&& c.len() > 0
    &&& forall|k: int| 0 <= k < c.len() - 1 ==> edge(s, #[trigger] c[k], c[k + 1])
    &&& edge(s, c.last(), c[0])
}

/// Whether the tunnel graph contains any cycle.
pub open spec fn has_cycle(s: Store) -> bool {
    exists|c: Seq<int>| is_cycle(s, c)
}

/// The recorded downstream dependant of entity `v`: the lowest-index tunnel
/// fed by `v`, the one `v`'s tick delivers into.
pub open spec fn first_dependant(s: Store, v: int) -> Option<int> {
    first_from(s.entities@.len() as int, 0, |t: int| edge(s, t, v))
}

/// A tick order for the tunnel graph: every graph node exactly once, and
/// every fed tunnel before its feeder.
pub open spec fn valid_order(s: Store, ord: Seq<int>) -> bool {
    &&& ord.no_duplicates()
    &&& forall|k: int| 0 <= k < ord.len() ==> in_graph(s, #[trigger] ord[k])
    &&& forall|v: int| in_graph(s, v) ==> ord.contains(v)
    &&& forall|k: int, t: int|
        0 <= k < ord.len() && #[trigger] edge(s, t, ord[k]) ==> exists|k2: int|
            0 <= k2 < k && ord[k2] == t
}

/// The nodes of the tunnel graph.
pub open spec fn graph_set(s: Store) -> Set<int> {
    Set::new(|v: int| in_graph(s, v))
}

/// The sources still unprocessed among those that must precede `u`.
pub open spec fn unproc(s: Store, processed: Seq<int>, u: int) -> Set<int> {
    Set::new(|t: int| edge(s, t, u) && !processed.contains(t))
}

/// The set of edge sources pointing at `u` is within the registry range.
proof fn lemma_unproc_finite(s: Store, processed: Seq<int>, u: int)
    ensures
        unproc(s, processed, u).finite(),
        unproc(s, processed, u).len() <= s.entities@.len(),
{
    let n = s.entities@.len() as int;
    lemma_int_range(0, n);
    assert(unproc(s, processed, u).subset_of(set_int_range(0, n)));
    lemma_len_subset(unproc(s, processed, u), set_int_range(0, n));
}

/// An index of a minimal element of a nonempty sequence of integers.
proof fn seq_argmin(vals: Seq<int>) -> (m: int)
    requires
        vals.len() > 0,
    ensures
        0 <= m < vals.len(),
        forall|k: int| 0 <= k < vals.len() ==> vals[m] <= #[trigger] vals[k],
    decreases vals.len(),
{
    if vals.len() == 1 {
        0
    } else {
        let m0 = seq_argmin(vals.drop_first());
        if vals[0] <= vals.drop_first()[m0] {
            assert forall|k: int| 0 <= k < vals.len() implies vals[0] <= #[trigger] vals[k] by {
                if k >= 1 {
                    assert(vals[k] == vals.drop_first()[k - 1]);
                    assert(vals.drop_first()[m0] <= vals.drop_first()[k - 1]);
                }
            }
            0
        } else {
            assert forall|k: int|
                0 <= k < vals.len() implies vals[m0 + 1] <= #[trigger] vals[k] by {
                assert(vals[m0 + 1] == vals.drop_first()[m0]);
                if k >= 1 {
                    assert(vals[k] == vals.drop_first()[k - 1]);
                    assert(vals.drop_first()[m0] <= vals.drop_first()[k - 1]);
                }
            }
            m0 + 1
        }
    }
}

/// A directed cycle under an abstract edge relation.
spec fn cycle_in(e: spec_fn(int, int) -> bool, c: Seq<int>) -> bool {
    &&& c.len() > 0
    &&& forall|k: int| 0 <= k < c.len() - 1 ==> #[trigger] e(c[k], c[k + 1])
    &&& e(c.last(), c[0])
}

/// A graph admitting an order in which every edge's source precedes its
/// target has no cycle.
proof fn lemma_acyclic_of_order(s: Store, ord: Seq<int>)
    requires
        valid_order(s, ord),
    ensures
        !has_cycle(s),
{
    if has_cycle(s) {
        let c = choose|c: Seq<int>| is_cycle(s, c);
        // every node on the cycle is a graph node, hence somewhere in `ord`
        assert forall|k: int| 0 <= k < c.len() implies in_graph(s, #[trigger] c[k]) by {
            if k < c.len() - 1 {
                assert(edge(s, c[k], c[k + 1]));
            } else {
                assert(c[k] == c.last());
                assert(edge(s, c.last(), c[0]));
            }
        }
        // positions of the cycle's nodes within the order
        let pos = Seq::new(c.len(), |k: int| choose|j: int| 0 <= j < ord.len() && ord[j] == c[k]);
        assert forall|k: int| 0 <= k < c.len() implies 0 <= #[trigger] pos[k] < ord.len()
            && ord[pos[k]] == c[k] by {
            assert(ord.contains(c[k]));
            let j0 = choose|j: int| 0 <= j < ord.len() && ord[j] == c[k];
            assert(ord[j0] == c[k]);
        }
        let m = seq_argmin(pos);
        // the cycle predecessor of the minimal-position node
        let pk = if m == 0 {
            c.len() - 1
        } else {
            m - 1
        };
        assert(edge(s, c[pk], c[m])) by {
            if m == 0 {
                assert(edge(s, c.last(), c[0]));
            }
        }
        assert(edge(s, c[pk], ord[pos[m]]));
        let k2 = choose|k2: int| 0 <= k2 < pos[m] && ord[k2] == c[pk];
        // `ord` holds each value once, so k2 is the position of c[pk]
        assert(ord[k2] == ord[pos[pk]]);
        assert(k2 == pos[pk]);
        assert(pos[m] <= pos[pk]);
        assert(false);
    }
}

/// A path through `r` following one in-edge backward from each node.
proof fn build_path(e: spec_fn(int, int) -> bool, r: Set<int>, v0: int, k: nat) -> (p: Seq<int>)
    requires
        r.contains(v0),
        forall|v: int| r.contains(v) ==> exists|t: int| r.contains(t) && #[trigger] e(t, v),
    ensures
        p.len() == k + 1,
        p[0] == v0,
        forall|j: int| 0 <= j < p.len() ==> r.contains(#[trigger] p[j]),
        forall|j: int| 0 <= j < p.len() - 1 ==> #[trigger] e(p[j + 1], p[j]),
    decreases k,
{
    if k == 0 {
        seq![v0]
    } else {
        let p0 = build_path(e, r, v0, (k - 1) as nat);
        let last = p0[p0.len() - 1];
        let t = choose|t: int| r.contains(t) && #[trigger] e(t, last);
        let p = p0.push(t);
        assert forall|j: int| 0 <= j < p.len() - 1 implies #[trigger] e(p[j + 1], p[j]) by {
            if j < p0.len() - 1 {
                assert(p[j + 1] == p0[j + 1] && p[j] == p0[j]);
            } else {
                assert(p[j] == last && p[j + 1] == t);
            }
        }
        p
    }
}

/// A sequence over a finite set, longer than the set, repeats some value.
proof fn lemma_seq_repeats(p: Seq<int>, r: Set<int>)
    requires
        r.finite(),
        forall|j: int| 0 <= j < p.len() ==> r.contains(#[trigger] p[j]),
        p.len() > r.len(),
    ensures
        exists|i: int, j: int| 0 <= i < j < p.len() && p[i] == p[j],
{
    if !(exists|i: int, j: int| 0 <= i < j < p.len() && p[i] == p[j]) {
        assert(p.no_duplicates()) by {
            assert forall|i: int, j: int|
                0 <= i < p.len() && 0 <= j < p.len() && i != j implies p[i] != p[j] by {
                if i < j {
                    assert(!(p[i] == p[j]));
                } else {
                    assert(!(p[j] == p[i]));
                }
            }
        }
        p.unique_seq_to_set();
        assert(p.to_set().subset_of(r));
        lemma_len_subset(p.to_set(), r);
        assert(false);
    }
}

/// A nonempty set in which every node has an in-neighbor inside the set
/// forces a cycle, under an abstract edge relation.
proof fn lemma_cycle_from_closed_abs(e: spec_fn(int, int) -> bool, r: Set<int>)
    requires
        r.finite(),
        r.len() > 0,
        forall|v: int| r.contains(v) ==> exists|t: int| r.contains(t) && #[trigger] e(t, v),
    ensures
        exists|c: Seq<int>| cycle_in(e, c),
{
    if r.len() == 0 {
        assert(r =~= Set::<int>::empty());
    }
    let v0 = r.choose();
    assert(r.contains(v0));
    let p = build_path(e, r, v0, r.len());
    lemma_seq_repeats(p, r);
    let (i, j) = choose|i: int, j: int| 0 <= i < j < p.len() && p[i] == p[j];
    // walk the repeated stretch backward to get a forward cycle
    let c = Seq::new((j - i) as nat, |m: int| p[j - m]);
    assert(cycle_in(e, c)) by {
        assert(c.len() > 0);
        assert forall|m: int| 0 <= m < c.len() - 1 implies #[trigger] e(c[m], c[m + 1]) by {
            assert(c[m] == p[j - m] && c[m + 1] == p[j - m - 1]);
            assert(e(p[(j - m - 1) + 1], p[j - m - 1]));
        }
        assert(c.last() == p[i + 1]);
        assert(c[0] == p[j]);
        assert(e(p[i + 1], p[i]));
        assert(p[i] == p[j]);
    }
}

/// A nonempty set in which every node has an in-neighbor inside the set
/// forces a cycle in the tunnel graph.
proof fn lemma_cycle_from_closed(s: Store, r: Set<int>)
    requires
        r.finite(),
        r.len() > 0,
        forall|v: int|
            r.contains(v) ==> exists|t: int| r.contains(t) && #[trigger] edge(s, t, v),
    ensures
        has_cycle(s),
{
    let e = |t: int, u: int| edge(s, t, u);
    assert forall|v: int| r.contains(v) implies exists|t: int|
        r.contains(t) && #[trigger] e(t, v) by {
        let t0 = choose|t: int| r.contains(t) && #[trigger] edge(s, t, v);
        assert(r.contains(t0) && e(t0, v));
    }
    lemma_cycle_from_closed_abs(e, r);
    let c = choose|c: Seq<int>| cycle_in(e, c);
    assert(is_cycle(s, c)) by {
        assert forall|k: int| 0 <= k < c.len() - 1 implies edge(s, #[trigger] c[k], c[k + 1]) by {
            assert(e(c[k], c[k + 1]));
        }
        assert(e(c.last(), c[0]));
    }
}

/// A finite subset with the superset's cardinality is the superset.
proof fn lemma_subset_same_len(a: Set<int>, b: Set<int>)
    requires
        a.subset_of(b),
        b.finite(),
        a.len() >= b.len(),
    ensures
        a =~= b,
{
    lemma_len_subset(a, b);
    if exists|x: int| b.contains(x) && !a.contains(x) {
        let x = choose|x: int| b.contains(x) && !a.contains(x);
        assert(a.subset_of(b.remove(x)));
        lemma_len_subset(a, b.remove(x));
    }
}

/// A duplicate-free sequence of values below `n` has at most `n` elements.
proof fn lemma_distinct_range_len(q: Seq<int>, n: int)
    requires
        q.no_duplicates(),
        forall|k: int| 0 <= k < q.len() ==> 0 <= #[trigger] q[k] < n,
        0 <= n,
    ensures
        q.len() <= n,
{
    q.unique_seq_to_set();
    lemma_int_range(0, n);
    assert(q.to_set().subset_of(set_int_range(0, n)));
    lemma_len_subset(q.to_set(), set_int_range(0, n));
}

/// Membership in a sequence extended by one element.
proof fn lemma_push_contains(q: Seq<int>, x: int)
    ensures
        forall|t: int| q.push(x).contains(t) <==> (q.contains(t) || t == x),
{
    assert forall|t: int| q.push(x).contains(t) <==> (q.contains(t) || t == x) by {
        if q.contains(t) {
            let k = choose|k: int| 0 <= k < q.len() && q[k] == t;
            assert(q.push(x)[k] == t);
        }
        if t == x {
            assert(q.push(x)[q.len() as int] == x);
        }
        if q.push(x).contains(t) {
            let k = choose|k: int| 0 <= k < q.push(x).len() && q.push(x)[k] == t;
            if k < q.len() {
                assert(q[k] == t);
            }
        }
    }
}

/// How the unprocessed-source sets change when `v` is marked processed:
/// the one target `v` points at loses `v`; every other target is untouched.
proof fn lemma_unproc_push(s: Store, ord: Seq<int>, v: int)
    ensures
        forall|u: int|
            edge(s, v, u) && !ord.contains(v) ==> unproc(s, ord.push(v), u) == unproc(
                s,
                ord,
                u,
            ).remove(v),
        forall|u: int| !edge(s, v, u) ==> unproc(s, ord.push(v), u) == unproc(s, ord, u),
{
    lemma_push_contains(ord, v);
    assert forall|u: int|
        edge(s, v, u) && !ord.contains(v) implies unproc(s, ord.push(v), u) == unproc(
        s,
        ord,
        u,
    ).remove(v) by {
        assert(unproc(s, ord.push(v), u) =~= unproc(s, ord, u).remove(v));
    }
    assert forall|u: int| !edge(s, v, u) implies unproc(s, ord.push(v), u) == unproc(
        s,
        ord,
        u,
    ) by {
        assert(unproc(s, ord.push(v), u) =~= unproc(s, ord, u));
    }
}

/// A well-formed list of the dependants of `u`: exactly the tunnels with an
/// edge into `u`, each under its own identifier, in ascending index order.
pub open spec fn deps_ok(s: Store, ds: Seq<EntityId>, u: int) -> bool {
    &&& forall|k: int|
        0 <= k < ds.len() ==> edge(s, (#[trigger] ds[k]).index as int, u) && ds[k] == id_at(
            s,
            ds[k].index as int,
        )
    &&& forall|t: int| #[trigger] edge(s, t, u) ==> exists|k: int|
        0 <= k < ds.len() && ds[k].index == t
    &&& forall|k1: int, k2: int| 0 <= k1 < k2 < ds.len() ==> ds[k1].index < ds[k2].index
}

/// A well-formed dependants list determines the recorded downstream
/// dependant: its first element, or nothing when it is empty.
pub proof fn lemma_deps_first(s: Store, ds: Seq<EntityId>, u: int)
    requires
        deps_ok(s, ds, u),
    ensures
        ds.len() > 0 ==> first_dependant(s, u) == Some(ds[0].index as int),
        ds.len() == 0 ==> first_dependant(s, u) is None,
{
    let n = s.entities@.len() as int;
    let pred = |t: int| edge(s, t, u);
    if ds.len() > 0 {
        let m = ds[0].index as int;
        assert(pred(m));
        assert(0 <= m < n);
        assert forall|t: int| 0 <= t < m implies !(#[trigger] pred(t)) by {
            if edge(s, t, u) {
                let k = choose|k: int| 0 <= k < ds.len() && ds[k].index == t;
                if k > 0 {
                    assert(ds[0].index < ds[k].index);
                }
            }
        }
        crate::inventory::lemma_first_from_found(n, 0, pred, m);
    } else {
        assert forall|t: int| 0 <= t < n implies !(#[trigger] pred(t)) by {
            if edge(s, t, u) {
                let k = choose|k: int| 0 <= k < ds.len() && ds[k].index == t;
            }
        }
        crate::inventory::lemma_first_from_none(n, 0, pred);
    }
}

/// The exact number of edges into `u`, read off its dependants list.
proof fn lemma_deps_count(s: Store, ds: Seq<EntityId>, u: int)
    requires
        deps_ok(s, ds, u),
    ensures
        ds.len() == unproc(s, Seq::<int>::empty(), u).len(),
{
    let idxs = ds.map_values(|id: EntityId| id.index as int);
    assert(idxs.no_duplicates()) by {
        assert forall|k1: int, k2: int|
            0 <= k1 < idxs.len() && 0 <= k2 < idxs.len() && k1 != k2 implies idxs[k1]
            != idxs[k2] by {
            if k1 < k2 {
                assert(ds[k1].index < ds[k2].index);
            } else {
                assert(ds[k2].index < ds[k1].index);
            }
        }
    }
    idxs.unique_seq_to_set();
    assert(idxs.to_set() =~= unproc(s, Seq::<int>::empty(), u)) by {
        assert forall|t: int| idxs.to_set().contains(t) implies unproc(
            s,
            Seq::<int>::empty(),
            u,
        ).contains(t) by {
            let k = choose|k: int| 0 <= k < idxs.len() && idxs[k] == t;
            assert(edge(s, ds[k].index as int, u));
        }
        assert forall|t: int| unproc(s, Seq::<int>::empty(), u).contains(t) implies idxs.to_set().contains(
            t,
        ) by {
            assert(edge(s, t, u));
            let k = choose|k: int| 0 <= k < ds.len() && ds[k].index == t;
            assert(idxs[k] == t);
        }
    }
}

/// The registry index of the entity feeding tunnel `t`, if any.
pub open spec fn feeder_idx(s: Store, t: int) -> Option<usize> {
    match tunnel_feeder(s, t) {
        Some(f) => Some(f.index),
        None => None,
    }
}

/// Builds the tunnel dependency graph and computes a tick order for it:
/// each fed tunnel before its feeder, so one tick moves an item at most one
/// hop. Returns the dependants of every entity together with the order, or
/// `None` exactly when the graph contains a cycle — the caller then skips
/// the whole tunnel pass for this tick.
#[verifier::rlimit(60)]
pub fn sorted_tunnels(store: &Store) -> (r: Option<(Vec<Vec<EntityId>>, Vec<EntityId>)>)
    requires
        store.wf(),
    ensures
        (r is Some) == !has_cycle(*store),
        r matches Some((deps, order)) ==> {
            &&& deps@.len() == store.entities@.len()
            &&& forall|u: int| 0 <= u < deps@.len() ==> deps_ok(*store, (#[trigger] deps@[u])@, u)
            &&& valid_order(*store, ord_of(order@))
            &&& forall|k: int|
                0 <= k < order@.len() ==> (#[trigger] order@[k]).index < store.entities@.len()
                    && order@[k] == id_at(*store, order@[k].index as int)
        },
{
    let ghost s = *store;
    let n = store.entities.len();

    // dependency discovery: one pass over the registry
    let mut deps: Vec<Vec<EntityId>> = Vec::new();
    let mut v0: usize = 0;
    while v0 < n
        invariant
            deps@.len() == v0,
            v0 <= n,
            forall|u: int| 0 <= u < v0 ==> (#[trigger] deps@[u])@.len() == 0,
        decreases n - v0,
    {
        deps.push(Vec::new());
        v0 += 1;
    }

    let mut feeder: Vec<Option<usize>> = Vec::new();
    let mut i: usize = 0;
    while i < n
        invariant
            store.wf(),
            s == *store,
            n == store.entities@.len(),
            deps@.len() == n,
            feeder@.len() == i,
            i <= n,
            forall|t: int| 0 <= t < i ==> #[trigger] feeder@[t] == feeder_idx(s, t),
            forall|t: int| 0 <= t < i ==> ((#[trigger] feeder@[t]) matches Some(u) ==> u < n),
            forall|u: int, k: int|
                0 <= u < n && 0 <= k < deps@[u]@.len() ==> {
                    &&& edge(s, (#[trigger] deps@[u]@[k]).index as int, u)
                    &&& deps@[u]@[k] == id_at(s, deps@[u]@[k].index as int)
                    &&& deps@[u]@[k].index < i
                },
            forall|u: int, t: int|
                0 <= u < n && 0 <= t < i && #[trigger] edge(s, t, u) ==> exists|k: int|
                    0 <= k < deps@[u]@.len() && deps@[u]@[k].index == t,
            forall|u: int, k1: int, k2: int|
                0 <= u < n && 0 <= k1 < k2 < deps@[u]@.len() ==> (#[trigger] deps@[u]@[k1]).index
                    < (#[trigger] deps@[u]@[k2]).index,
        decreases n - i,
    {
        let f: Option<EntityId> = {
            let entry = &store.entities[i];
            if entry.ticking {
                match (&entry.data, &entry.position) {
                    (EntityData::Tunnel(_, direction, _), Some(p)) => {
                        match p.move_by(direction.flip(), 1) {
                            Some(cell) => store.world.get(cell).entity(),
                            None => None,
                        }
                    },
                    _ => None,
                }
            } else {
                None
            }
        };
        proof {
            assert(f == tunnel_feeder(s, i as int));
        }
        match f {
            Some(u) => {
                proof {
                    assert(u.index < n);
                    assert(edge(s, i as int, u.index as int));
                }
                feeder.push(Some(u.index));
                let id = EntityId { index: i, kind: store.entities[i].data.kind() };
                let ghost deps0 = deps@;
                let lst = &mut deps[u.index];
                lst.push(id);
                proof {
                    assert(deps@[u.index as int]@ == deps0[u.index as int]@.push(id));
                    assert forall|w: int, t: int|
                        0 <= w < n && 0 <= t < i + 1 && #[trigger] edge(s, t, w) implies exists|
                        k: int,
                    |
                        0 <= k < deps@[w]@.len() && deps@[w]@[k].index == t by {
                        if t < i {
                            let k0 = choose|k0: int|
                                0 <= k0 < deps0[w]@.len() && deps0[w]@[k0].index == t;
                            assert(deps@[w]@[k0].index == t);
                        } else {
                            assert(w == u.index as int);
                            assert(deps@[w]@[deps@[w]@.len() - 1].index == t);
                        }
                    }
                }
            },
            None => {
                feeder.push(None);
                proof {
                    assert forall|w: int, t: int|
                        0 <= w < n && 0 <= t < i + 1 && #[trigger] edge(s, t, w) implies exists|
                        k: int,
                    |
                        0 <= k < deps@[w]@.len() && deps@[w]@[k].index == t by {
                        assert(t != i);
                    }
                }
            },
        }
        i += 1;
    }

    // count graph nodes and seed the worklist with those nothing precedes
    let mut indeg: Vec<usize> = Vec::new();
    let mut queue: Vec<usize> = Vec::new();
    let mut node_count: usize = 0;
    let mut v: usize = 0;
    proof {
        assert(Set::new(|w: int| 0 <= w < 0 && in_graph(s, w)) =~= Set::<int>::empty());
    }
    while v < n
        invariant
            store.wf(),
            s == *store,
            n == store.entities@.len(),
            deps@.len() == n,
            feeder@.len() == n,
            forall|t: int| 0 <= t < n ==> #[trigger] feeder@[t] == feeder_idx(s, t),
            forall|u: int| 0 <= u < n ==> deps_ok(s, (#[trigger] deps@[u])@, u),
            indeg@.len() == v,
            v <= n,
            forall|u: int| 0 <= u < v ==> #[trigger] indeg@[u] == deps@[u]@.len(),
            node_count == Set::new(|w: int| 0 <= w < v && in_graph(s, w)).len(),
            Set::new(|w: int| 0 <= w < v && in_graph(s, w)).finite(),
            node_count <= v,
            forall|k: int|
                0 <= k < queue@.len() ==> {
                    &&& (#[trigger] queue@[k]) < v
                    &&& in_graph(s, queue@[k] as int)
                    &&& deps@[queue@[k] as int]@.len() == 0
                },
            forall|k1: int, k2: int|
                0 <= k1 < k2 < queue@.len() ==> queue@[k1] != queue@[k2],
            forall|w: int|
                0 <= w < v && in_graph(s, w) && deps@[w]@.len() == 0 ==> queue@.contains(
                    w as usize,
                ),
        decreases n - v,
    {
        let ing = feeder[v].is_some() || deps[v].len() > 0;
        proof {
            assert(ing == in_graph(s, v as int)) by {
                if deps@[v as int]@.len() > 0 {
                    assert(edge(s, deps@[v as int]@[0].index as int, v as int));
                }
                if exists|t: int| edge(s, t, v as int) {
                    let t = choose|t: int| edge(s, t, v as int);
                    assert(deps@[v as int]@.len() > 0);
                }
            }
            assert(Set::new(|w: int| 0 <= w < v + 1 && in_graph(s, w)) =~= if in_graph(
                s,
                v as int,
            ) {
                Set::new(|w: int| 0 <= w < v && in_graph(s, w)).insert(v as int)
            } else {
                Set::new(|w: int| 0 <= w < v && in_graph(s, w))
            });
            lemma_int_range(0, v as int);
            assert(Set::new(|w: int| 0 <= w < v && in_graph(s, w)).subset_of(
                set_int_range(0, v as int),
            ));
            lemma_len_subset(
                Set::new(|w: int| 0 <= w < v && in_graph(s, w)),
                set_int_range(0, v as int),
            );
        }
        indeg.push(deps[v].len());
        let ghost q0 = queue@;
        if ing {
            node_count += 1;
            if deps[v].len() == 0 {
                queue.push(v);
            }
        }
        proof {
            assert forall|w: int|
                0 <= w < v + 1 && in_graph(s, w) && deps@[w]@.len() == 0 implies queue@.contains(
                w as usize,
            ) by {
                if w < v {
                    let k = choose|k: int| 0 <= k < q0.len() && q0[k] == w as usize;
                    assert(queue@[k] == w as usize);
                } else {
                    assert(queue@[queue@.len() - 1] == w as usize);
                }
            }
        }
        v += 1;
    }
    proof {
        assert(Set::new(|w: int| 0 <= w < n && in_graph(s, w)) =~= graph_set(s));
        assert(graph_set(s).finite() && graph_set(s).len() == node_count);
    }

    // peel off nodes whose every predecessor is already ordered
    let mut order: Vec<EntityId> = Vec::new();
    proof {
        assert(ord_of(order@) =~= Seq::<int>::empty());
        assert forall|u: int| 0 <= u < n implies #[trigger] indeg@[u] == unproc(
            s,
            ord_of(order@),
            u,
        ).len() by {
            lemma_deps_count(s, deps@[u]@, u);
            assert(unproc(s, Seq::<int>::empty(), u) =~= unproc(s, ord_of(order@), u));
        }
        assert forall|k: int|
            0 <= k < queue@.len() implies unproc(
            s,
            ord_of(order@),
            (#[trigger] queue@[k]) as int,
        ).len() == 0 by {
            lemma_deps_count(s, deps@[queue@[k] as int]@, queue@[k] as int);
            assert(unproc(s, Seq::<int>::empty(), queue@[k] as int) =~= unproc(
                s,
                ord_of(order@),
                queue@[k] as int,
            ));
        }
        assert forall|w: int|
            in_graph(s, w) && !ord_of(order@).contains(w) && !queue@.contains(w as usize)
                implies unproc(s, ord_of(order@), w).len() > 0 by {
            assert(0 <= w < n);
            assert(deps@[w]@.len() > 0);
            lemma_deps_count(s, deps@[w]@, w);
            assert(unproc(s, Seq::<int>::empty(), w) =~= unproc(s, ord_of(order@), w));
        }
    }
    while queue.len() > 0
        invariant
            store.wf(),
            s == *store,
            n == store.entities@.len(),
            deps@.len() == n,
            feeder@.len() == n,
            forall|t: int| 0 <= t < n ==> #[trigger] feeder@[t] == feeder_idx(s, t),
            forall|u: int| 0 <= u < n ==> deps_ok(s, (#[trigger] deps@[u])@, u),
            graph_set(s).finite(),
            node_count == graph_set(s).len(),
            indeg@.len() == n,
            order@.len() <= n,
            ord_of(order@).no_duplicates(),
            forall|k: int|
                0 <= k < order@.len() ==> in_graph(s, #[trigger] ord_of(order@)[k]) && order@[k]
                    == id_at(s, ord_of(order@)[k]),
            forall|k: int, t: int|
                0 <= k < order@.len() && #[trigger] edge(s, t, ord_of(order@)[k]) ==> exists|
                    k2: int,
                |
                    0 <= k2 < k && ord_of(order@)[k2] == t,
            forall|u: int|
                0 <= u < n ==> #[trigger] indeg@[u] == unproc(s, ord_of(order@), u).len(),
            forall|k: int|
                0 <= k < queue@.len() ==> {
                    &&& (#[trigger] queue@[k]) < n
                    &&& in_graph(s, queue@[k] as int)
                    &&& !ord_of(order@).contains(queue@[k] as int)
                    &&& unproc(s, ord_of(order@), queue@[k] as int).len() == 0
                },
            forall|k1: int, k2: int| 0 <= k1 < k2 < queue@.len() ==> queue@[k1] != queue@[k2],
            forall|w: int|
                in_graph(s, w) && !ord_of(order@).contains(w) && !queue@.contains(w as usize)
                    ==> unproc(s, ord_of(order@), w).len() > 0,
        decreases n - order@.len(),
    {
        let ghost ord = ord_of(order@);
        let ghost q0 = queue@;
        let v = match queue.pop() {
            Some(v) => v,
            None => {
                proof {
                    assert(false);
                }
                0
            },
        };
        proof {
            assert(v == q0[q0.len() - 1]);
            assert(queue@ =~= q0.drop_last());
            // what was popped still satisfies the worklist facts
            assert(v < n && in_graph(s, v as int) && !ord.contains(v as int) && unproc(
                s,
                ord,
                v as int,
            ).len() == 0);
            lemma_unproc_finite(s, ord, v as int);
            unproc(s, ord, v as int).lemma_len0_is_empty();
        }
        let id = EntityId { index: v, kind: store.entities[v].data.kind() };
        order.push(id);
        proof {
            assert(ord_of(order@) =~= ord.push(v as int));
            lemma_push_contains(ord, v as int);
            lemma_unproc_push(s, ord, v as int);
            // every edge into v comes from an already ordered node
            assert forall|t: int| #[trigger] edge(s, t, v as int) implies ord.contains(t) by {
                assert(!unproc(s, ord, v as int).contains(t));
            }
            assert forall|k: int, t: int|
                0 <= k < order@.len() && #[trigger] edge(s, t, ord_of(order@)[k]) implies exists|
                k2: int,
            |
                0 <= k2 < k && ord_of(order@)[k2] == t by {
                if k == order@.len() - 1 {
                    assert(ord_of(order@)[k] == v as int);
                    let k2 = choose|k2: int| 0 <= k2 < ord.len() && ord[k2] == t;
                    assert(ord_of(order@)[k2] == t);
                } else {
                    let k2 = choose|k2: int| 0 <= k2 < k && ord[k2] == t;
                    assert(ord_of(order@)[k2] == t);
                }
            }
            assert forall|k: int|
                0 <= k < order@.len() implies in_graph(s, #[trigger] ord_of(order@)[k])
                && order@[k] == id_at(s, ord_of(order@)[k]) by {}
            lemma_distinct_range_len(ord_of(order@), n as int);
        }
        let f = feeder[v];
        match f {
            Some(u0) => {
                proof {
                    assert(feeder_idx(s, v as int) == Some(u0));
                    assert(edge(s, v as int, u0 as int));
                    assert(unproc(s, ord, u0 as int).contains(v as int));
                    lemma_unproc_finite(s, ord, u0 as int);
                    if unproc(s, ord, u0 as int).len() == 0 {
                        unproc(s, ord, u0 as int).lemma_len0_is_empty();
                    }
                    // only the edge target of v loses an unprocessed source
                    assert forall|u: int|
                        0 <= u < n && u != u0 implies unproc(s, ord_of(order@), u) == unproc(
                        s,
                        ord,
                        u,
                    ) by {
                        assert(!edge(s, v as int, u));
                    }
                    assert(unproc(s, ord_of(order@), u0 as int) == unproc(
                        s,
                        ord,
                        u0 as int,
                    ).remove(v as int));
                }
                let d = indeg[u0];
                indeg.set(u0, d - 1);
                if d == 1 {
                    proof {
                        assert(in_graph(s, u0 as int));
                        assert(u0 != v) by {
                            if u0 == v {
                                assert(unproc(s, ord, v as int).contains(v as int));
                            }
                        }
                        assert(!ord.contains(u0 as int)) by {
                            if ord.contains(u0 as int) {
                                let k = choose|k: int| 0 <= k < ord.len() && ord[k] == u0 as int;
                                assert(edge(s, v as int, ord[k]));
                                let k2 = choose|k2: int| 0 <= k2 < k && ord[k2] == v as int;
                                assert(ord.contains(v as int));
                            }
                        }
                        // u0 was not on the worklist: something still preceded it
                        assert(!q0.contains(u0)) by {
                            if q0.contains(u0) {
                                let k = choose|k: int| 0 <= k < q0.len() && q0[k] == u0;
                            }
                        }
                        assert(!queue@.contains(u0)) by {
                            if queue@.contains(u0) {
                                let k = choose|k: int| 0 <= k < queue@.len() && queue@[k] == u0;
                                assert(q0[k] == u0);
                            }
                        }
                    }
                    queue.push(u0);
                    proof {
                        lemma_restore_worklist(s, ord, ord_of(order@), q0, queue@, v, n as int);
                    }
                } else {
                    proof {
                        lemma_restore_worklist(s, ord, ord_of(order@), q0, queue@, v, n as int);
                        assert(unproc(s, ord_of(order@), u0 as int).len() > 0);
                    }
                }
            },
            None => {
                proof {
                    assert forall|u: int| 0 <= u < n implies unproc(s, ord_of(order@), u)
                        == unproc(s, ord, u) by {
                        assert(!edge(s, v as int, u));
                    }
                    lemma_restore_worklist(s, ord, ord_of(order@), q0, queue@, v, n as int);
                }
            },
        }
    }

    // the worklist ran dry: either everything was ordered, or a cycle
    // starves the remainder
    if order.len() == node_count {
        proof {
            let ord = ord_of(order@);
            ord.unique_seq_to_set();
            assert(ord.to_set().subset_of(graph_set(s))) by {
                assert forall|x: int| ord.to_set().contains(x) implies graph_set(s).contains(
                    x,
                ) by {
                    let k = choose|k: int| 0 <= k < ord.len() && ord[k] == x;
                    assert(in_graph(s, ord[k]));
                }
            }
            lemma_subset_same_len(ord.to_set(), graph_set(s));
            assert forall|w: int| in_graph(s, w) implies ord.contains(w) by {
                assert(graph_set(s).contains(w));
                assert(ord.to_set().contains(w));
            }
            assert(valid_order(s, ord));
            lemma_acyclic_of_order(s, ord);
            assert forall|k: int|
                0 <= k < order@.len() implies (#[trigger] order@[k]).index
                < store.entities@.len() && order@[k] == id_at(s, order@[k].index as int) by {
                assert(ord[k] == order@[k].index as int);
                assert(in_graph(s, ord[k]));
            }
        }
        Some((deps, order))
    } else {
        proof {
            let ord = ord_of(order@);
            let leftover = Set::new(|w: int| in_graph(s, w) && !ord.contains(w));
            assert(leftover.subset_of(graph_set(s)));
            lemma_len_subset(leftover, graph_set(s));
            ord.unique_seq_to_set();
            assert(ord.to_set().subset_of(graph_set(s))) by {
                assert forall|x: int| ord.to_set().contains(x) implies graph_set(s).contains(
                    x,
                ) by {
                    let k = choose|k: int| 0 <= k < ord.len() && ord[k] == x;
                    assert(in_graph(s, ord[k]));
                }
            }
            lemma_len_subset(ord.to_set(), graph_set(s));
            // some graph node was never ordered
            assert(leftover.len() > 0) by {
                if leftover.len() == 0 {
                    leftover.lemma_len0_is_empty();
                    assert(graph_set(s).subset_of(ord.to_set())) by {
                        assert forall|w: int|
                            graph_set(s).contains(w) implies ord.to_set().contains(w) by {
                            assert(!leftover.contains(w));
                        }
                    }
                    lemma_len_subset(graph_set(s), ord.to_set());
                }
            }
            // and each leftover node is preceded by another leftover node
            assert forall|w: int| leftover.contains(w) implies exists|t: int|
                leftover.contains(t) && #[trigger] edge(s, t, w) by {
                assert(!queue@.contains(w as usize)) by {
                    if queue@.contains(w as usize) {
                        let k = choose|k: int|
                            0 <= k < queue@.len() && queue@[k] == w as usize;
                    }
                }
                assert(unproc(s, ord, w).len() > 0);
                lemma_unproc_finite(s, ord, w);
                assert(exists|t: int| unproc(s, ord, w).contains(t)) by {
                    if !(exists|t: int| unproc(s, ord, w).contains(t)) {
                        assert(unproc(s, ord, w) =~= Set::<int>::empty());
                    }
                }
                let t = choose|t: int| unproc(s, ord, w).contains(t);
                assert(edge(s, t, w) && !ord.contains(t));
                assert(in_graph(s, t));
                assert(leftover.contains(t) && edge(s, t, w));
            }
            lemma_cycle_from_closed(s, leftover);
        }
        None
    }
}

/// After one node moves from the worklist to the order, the remaining
/// worklist entries still satisfy the worklist facts, and every stalled
/// graph node still has an unprocessed predecessor.
proof fn lemma_restore_worklist(
    s: Store,
    ord: Seq<int>,
    ord2: Seq<int>,
    q0: Seq<usize>,
    q2: Seq<usize>,
    v: usize,
    n: int,
)
    requires
        n == s.entities@.len(),
        n <= usize::MAX,
        ord2 == ord.push(v as int),
        q0.len() > 0,
        v == q0[q0.len() - 1],
        q2 == q0.drop_last() || (q2 == q0.drop_last().push(feeder_target(s, v as int))
            && feeder_idx(s, v as int) == Some(feeder_target(s, v as int))
            && !ord2.contains(feeder_target(s, v as int) as int) && in_graph(
            s,
            feeder_target(s, v as int) as int,
        ) && unproc(s, ord2, feeder_target(s, v as int) as int).len() == 0 && !q0.contains(
            feeder_target(s, v as int),
        )),
        forall|k: int|
            0 <= k < q0.len() ==> {
                &&& (#[trigger] q0[k]) < n
                &&& in_graph(s, q0[k] as int)
                &&& !ord.contains(q0[k] as int)
                &&& unproc(s, ord, q0[k] as int).len() == 0
            },
        forall|k1: int, k2: int| 0 <= k1 < k2 < q0.len() ==> q0[k1] != q0[k2],
        forall|w: int|
            in_graph(s, w) && !ord.contains(w) && !q0.contains(w as usize) ==> unproc(
                s,
                ord,
                w,
            ).len() > 0,
        forall|u: int|
            0 <= u < n && !edge(s, v as int, u) ==> unproc(s, ord2, u) == unproc(s, ord, u),
        forall|u: int|
            0 <= u < n && edge(s, v as int, u) ==> unproc(s, ord2, u) == unproc(
                s,
                ord,
                u,
            ).remove(v as int),
        forall|u: int| edge(s, v as int, u) ==> feeder_idx(s, v as int) == Some(u as usize) && 0
            <= u < n,
        q2 == q0.drop_last() ==> forall|u: int|
            edge(s, v as int, u) ==> unproc(s, ord2, u).len() > 0,
    ensures
        forall|k: int|
            0 <= k < q2.len() ==> {
                &&& (#[trigger] q2[k]) < n
                &&& in_graph(s, q2[k] as int)
                &&& !ord2.contains(q2[k] as int)
                &&& unproc(s, ord2, q2[k] as int).len() == 0
            },
        forall|k1: int, k2: int| 0 <= k1 < k2 < q2.len() ==> q2[k1] != q2[k2],
        forall|w: int|
            in_graph(s, w) && !ord2.contains(w) && !q2.contains(w as usize) ==> unproc(
                s,
                ord2,
                w,
            ).len() > 0,
{
    lemma_push_contains(ord, v as int);
    let pushed = q2 != q0.drop_last();
    let u0 = feeder_target(s, v as int);
    assert forall|k: int|
        0 <= k < q2.len() implies {
        &&& (#[trigger] q2[k]) < n
        &&& in_graph(s, q2[k] as int)
        &&& !ord2.contains(q2[k] as int)
        &&& unproc(s, ord2, q2[k] as int).len() == 0
    } by {
        if pushed && k == q2.len() - 1 {
            assert(q2[k] == u0);
        } else {
            let q = q2[k];
            assert(q == q0[k]);
            assert(q != v);
            if edge(s, v as int, q as int) {
                assert(unproc(s, ord, q as int).contains(v as int));
                lemma_unproc_finite(s, ord, q as int);
                unproc(s, ord, q as int).lemma_len0_is_empty();
            }
            assert(unproc(s, ord2, q as int) == unproc(s, ord, q as int));
        }
    }
    assert forall|k1: int, k2: int| 0 <= k1 < k2 < q2.len() implies q2[k1] != q2[k2] by {
        if pushed && k2 == q2.len() - 1 {
            assert(q2[k1] == q0[k1]);
            assert(!q0.contains(u0));
        } else {
            assert(q2[k1] == q0[k1] && q2[k2] == q0[k2]);
        }
    }
    assert forall|w: int|
        in_graph(s, w) && !ord2.contains(w) && !q2.contains(w as usize) implies unproc(
        s,
        ord2,
        w,
    ).len() > 0 by {
        assert(w != v as int);
        assert(!ord.contains(w));
        if pushed && w == u0 as int {
            assert(q2[q2.len() - 1] == u0);
            assert(q2.contains(u0));
        } else {
            if edge(s, v as int, w) {
                // v's one edge target either kept a positive count or was
                // pushed onto the worklist
                if unproc(s, ord2, w).len() == 0 {
                    assert(!pushed) by {
                        if pushed {
                            assert(feeder_idx(s, v as int) == Some(w as usize));
                            assert(u0 == w as usize);
                            assert(q2[q2.len() - 1] == u0);
                            assert(q2.contains(u0));
                        }
                    }
                    assert(unproc(s, ord2, w).len() > 0);
                }
            } else {
                assert(unproc(s, ord2, w) == unproc(s, ord, w));
                if !q0.contains(w as usize) {
                    assert(unproc(s, ord, w).len() > 0);
                } else {
                    let k = choose|k: int| 0 <= k < q0.len() && q0[k] == w as usize;
                    if k < q0.len() - 1 {
                        assert(q0.drop_last()[k] == w as usize);
                        assert(q2.contains(w as usize)) by {
                            assert(q2[k] == w as usize);
                        }
                    } else {
                        assert(w == v as int);
                    }
                }
            }
        }
    }
}

/// The index fed by tunnel `v`, when it has a feeder.
pub open spec fn feeder_target(s: Store, v: int) -> usize {
    feeder_idx(s, v)->Some_0
}

/// The registry indices named by a sequence of identifiers.
pub open spec fn ord_of(order: Seq<EntityId>) -> Seq<int> {
    order.map_values(|id: EntityId| id.index as int)
}

/// What one tick does to one tunnel-graph node: transfer the node's whole
/// stack into its recorded downstream dependant, or change nothing when it
/// has none or either half of the transfer fails to verify.
pub open spec fn tunnel_step_rel(pre: Store, post: Store, v: int) -> bool {
    match first_dependant(pre, v) {
        Some(d) => {
            let op = VerifyOperation::Remove(None, None);
            if pre.swap_ok(id_at(pre, v), id_at(pre, d), op) {
                Store::swap_applied(pre, post, id_at(pre, v), id_at(pre, d), op)
            } else {
                post == pre
            }
        },
        None => post == pre,
    }
}

/// One tunnel step, as a step function over registry indices.
pub open spec fn tunnel_step_fn() -> spec_fn(Store, Store, int) -> bool {
    |pre: Store, post: Store, v: int| tunnel_step_rel(pre, post, v)
}

/// Scans that agree pointwise find the same index.
proof fn lemma_first_from_congr(
    len: int,
    j: int,
    p1: spec_fn(int) -> bool,
    p2: spec_fn(int) -> bool,
)
    requires
        0 <= j,
        forall|i: int| #[trigger] p1(i) == p2(i),
    ensures
        first_from(len, j, p1) == first_from(len, j, p2),
    decreases len - j,
{
    if j < len {
        lemma_first_from_congr(len, j + 1, p1, p2);
    }
}

/// A tick pass never moves entities or rewrites the grid, so the tunnel
/// graph it computes at the start stays valid throughout the pass.
pub proof fn lemma_graph_stable(s1: Store, s2: Store)
    requires
        frame_preserved(s1, s2),
    ensures
        forall|i: int|
            0 <= i < s1.entities@.len() ==> #[trigger] tunnel_feeder(s2, i) == tunnel_feeder(
                s1,
                i,
            ),
        forall|t: int, u: int| #[trigger] edge(s2, t, u) == edge(s1, t, u),
        forall|v: int| #[trigger] first_dependant(s2, v) == first_dependant(s1, v),
        forall|i: int|
            0 <= i < s1.entities@.len() ==> #[trigger] id_at(s2, i) == id_at(s1, i),
{
    assert forall|i: int|
        0 <= i < s1.entities@.len() implies #[trigger] tunnel_feeder(s2, i) == tunnel_feeder(
        s1,
        i,
    ) by {
        let e1 = s1.entities@[i];
        let e2 = s2.entities@[i];
        assert(EntityData::same_shape(e1.data, e2.data));
        match (e1.data, e2.data) {
            (EntityData::Tunnel(a, d1, _), EntityData::Tunnel(b, d2, _)) => {
                assert(d1 == d2);
            },
            _ => {},
        }
    }
    assert forall|t: int, u: int| #[trigger] edge(s2, t, u) == edge(s1, t, u) by {
        if 0 <= t < s1.entities@.len() {
            assert(tunnel_feeder(s2, t) == tunnel_feeder(s1, t));
        }
    }
    assert forall|i: int|
        0 <= i < s1.entities@.len() implies #[trigger] id_at(s2, i) == id_at(s1, i) by {
        assert(EntityData::same_shape(s1.entities@[i].data, s2.entities@[i].data));
    }
    assert forall|v: int| #[trigger] first_dependant(s2, v) == first_dependant(s1, v) by {
        lemma_first_from_congr(
            s1.entities@.len() as int,
            0,
            |t: int| edge(s2, t, v),
            |t: int| edge(s1, t, v),
        );
    }
}

/// Law: along a valid tunnel order, the recorded dependant of every node
/// is ticked strictly earlier than the node itself. The stack a node
/// delivers therefore lands in a buffer whose turn is already over, and is
/// never forwarded again within the same pass — an item moves at most one
/// hop per tunnel tick.
pub proof fn lemma_delivery_precedes(s: Store, ord: Seq<int>, k: int)
    requires
        valid_order(s, ord),
        0 <= k < ord.len(),
        first_dependant(s, ord[k]) is Some,
    ensures
        exists|k2: int|
            0 <= k2 < k && ord[k2] == first_dependant(s, ord[k])->Some_0,
{
    let d = first_dependant(s, ord[k])->Some_0;
    crate::inventory::lemma_first_from_pred(
        s.entities@.len() as int,
        0,
        |t: int| edge(s, t, ord[k]),
    );
    assert(edge(s, d, ord[k]));
}

/// Advances the tunnel subsystem by one tick: resolves the dependency
/// graph, and ticks its nodes strictly in an order that handles each fed
/// tunnel before its feeder — so an item moves at most one hop per tick.
/// When the graph has a cycle the store is left entirely unchanged for this
/// tick; the skip heals by itself once later play breaks the cycle.
pub fn tunnel_tick(store: &mut Store)
    requires
        old(store).wf(),
    ensures
        final(store).wf(),
        frame_preserved(*old(store), *final(store)),
        has_cycle(*old(store)) ==> *final(store) == *old(store),
        !has_cycle(*old(store)) ==> exists|ord: Seq<int>|
            valid_order(*old(store), ord) && run_rel(
                *old(store),
                *final(store),
                ord,
                tunnel_step_fn(),
            ),
        final(store).global_total() == old(store).global_total(),
{
    let r = sorted_tunnels(store);
    match r {
        None => {},
        Some((deps, order)) => {
            let m = order.len();
            let mut k: usize = 0;
            while k < m
                invariant
                    old(store).wf(),
                    store.wf(),
                    frame_preserved(*old(store), *store),
                    m == order@.len(),
                    k <= m,
                    deps@.len() == old(store).entities@.len(),
                    forall|u: int|
                        0 <= u < deps@.len() ==> deps_ok(*old(store), (#[trigger] deps@[u])@, u),
                    forall|j: int|
                        0 <= j < order@.len() ==> (#[trigger] order@[j]).index < old(
                            store,
                        ).entities@.len() && order@[j] == id_at(*old(store), order@[j].index as int),
                    run_rel(
                        *old(store),
                        *store,
                        ord_of(order@).take(k as int),
                        tunnel_step_fn(),
                    ),
                    store.global_total() == old(store).global_total(),
                decreases m - k,
            {
                let ghost pre = *store;
                let v = order[k];
                let has_dep = deps[v.index].len() > 0;
                if has_dep {
                    let d = deps[v.index][0];
                    store.swap_between(v, d, VerifyOperation::Remove(None, None));
                }
                proof {
                    lemma_graph_stable(*old(store), pre);
                    lemma_deps_first(*old(store), deps@[v.index as int]@, v.index as int);
                    assert(id_at(pre, v.index as int) == v);
                    assert(tunnel_step_rel(pre, *store, v.index as int)) by {
                        if has_dep {
                            let d0 = deps@[v.index as int]@[0];
                            assert(first_dependant(pre, v.index as int) == Some(
                                d0.index as int,
                            ));
                            assert(id_at(pre, d0.index as int) == d0);
                        } else {
                            assert(first_dependant(pre, v.index as int) is None);
                        }
                    }
                    assert(tunnel_step_fn()(pre, *store, ord_of(order@).take(k as int).push(
                        ord_of(order@)[k as int],
                    ).last()) == tunnel_step_rel(pre, *store, v.index as int)) by {
                        assert(ord_of(order@)[k as int] == v.index as int);
                    }
                    lemma_run_rel_snoc(
                        *old(store),
                        pre,
                        *store,
                        ord_of(order@).take(k as int),
                        v.index as int,
                        tunnel_step_fn(),
                    );
                    assert(ord_of(order@).take(k as int).push(v.index as int) =~= ord_of(
                        order@,
                    ).take(k + 1));
                }
                k += 1;
            }
            proof {
                assert(ord_of(order@).take(m as int) =~= ord_of(order@));
                assert(valid_order(*old(store), ord_of(order@)) && run_rel(
                    *old(store),
                    *store,
                    ord_of(order@),
                    tunnel_step_fn(),
                ));
            }
        },
    }
}

} // verus!
