//! Per-type tick handlers. Each pass reads the registry, computes candidate
//! transfers for all entities of its type, and commits them through the
//! inventory protocol; a pass touches only inventories, never positions, the
//! grid, or entity data.

use vstd::prelude::*;

use crate::inventory::lemma_verify_shape;
use crate::inventory::ModifyOperation;
use crate::inventory::VerifyOperation;
use crate::items::EntityId;
use crate::items::EntityKind;
use crate::items::Item;
use crate::store::entry_modified;
use crate::store::frame_preserved;
use crate::store::item_ok;
use crate::store::lemma_run_rel_snoc;
use crate::store::lemma_store_inv_wf;
use crate::store::run_rel;
use crate::store::EntityData;
use crate::store::Entry;
use crate::store::PodData;
use crate::store::BeltData;
use crate::store::PusherData;
use crate::store::Store;
use crate::world::Position;

verus! {

/// The identifier of the entity at registry index `i`.
pub open spec fn id_at(s: Store, i: int) -> EntityId {
    EntityId { index: i as usize, kind: s.entities@[i].data.kind_spec() }
}

/// Whether the entry is a pod the scheduler advances: registered as
/// ticking and standing on the grid.
pub open spec fn pod_ticks(e: Entry) -> bool {
    e.ticking && e.position is Some && e.data is Pod
}

/// What one tick does to one pod's entry: try to produce one unit of its
/// resource into its own buffer; when the buffer cannot take it, stall
/// silently.
pub open spec fn pod_step_rel(pre: Entry, post: Entry) -> bool {
    if pod_ticks(pre) {
        match pre.data {
            EntityData::Pod(PodData(resource), inv) => match inv.verify_spec(
                VerifyOperation::Add(resource, 1),
            ) {
                Some((m, b, a)) => entry_modified(pre, post, m),
                None => post == pre,
            },
            _ => post == pre,
        }
    } else {
        post == pre
    }
}

/// Advances every ticking pod: each tries to add one unit of its produced
/// resource to its own buffer, stalling when the buffer is full. Pods are
/// independent of one another, so the result is exact per entry.
pub fn pod_tick(store: &mut Store)
    requires
        old(store).wf(),
    ensures
        final(store).wf(),
        frame_preserved(*old(store), *final(store)),
        forall|i: int|
            0 <= i < old(store).entities@.len() ==> pod_step_rel(
                old(store).entities@[i],
                final(store).entities@[i],
            ),
        final(store).global_total() >= old(store).global_total(),
{
    let n = store.entities.len();
    let mut i: usize = 0;
    while i < n
        invariant
            store.wf(),
            n == store.entities@.len(),
            i <= n,
            frame_preserved(*old(store), *store),
            forall|j: int|
                0 <= j < i ==> pod_step_rel(old(store).entities@[j], store.entities@[j]),
            forall|j: int| i <= j < n ==> store.entities@[j] == old(store).entities@[j],
            store.global_total() >= old(store).global_total(),
        decreases n - i,
    {
        let verified: Option<(ModifyOperation, crate::inventory::Before, crate::inventory::After)> = {
            let entry = &store.entities[i];
            if entry.ticking && entry.position.is_some() {
                match &entry.data {
                    EntityData::Pod(PodData(resource), inv) => {
                        proof {
                            lemma_store_inv_wf(
                                *store,
                                EntityId { index: i, kind: EntityKind::Pod },
                            );
                        }
                        inv.verify(VerifyOperation::Add(*resource, 1))
                    },
                    _ => None,
                }
            } else {
                None
            }
        };
        match verified {
            Some((m, before, after)) => {
                let id = EntityId { index: i, kind: EntityKind::Pod };
                let ghost pre = *store;
                let ghost inv0 = store.inventory_spec(id)->Some_0;
                proof {
                    lemma_verify_shape(inv0, VerifyOperation::Add(m.item, 1));
                }
                store.commit_inventory(id, m);
                proof {
                    let inv1 = store.entities@[i as int].data.inventory_spec()->Some_0;
                    crate::inventory::lemma_modify_total(
                        inv0,
                        inv1,
                        VerifyOperation::Add(m.item, 1),
                        m,
                        before.0,
                        after.0,
                    );
                    crate::store::lemma_global_one_update(pre, *store, i as int);
                }
            },
            None => {},
        }
        i += 1;
    }
}

/// The downstream entity one step along a ticking belt's facing direction,
/// if that cell holds one.
pub open spec fn belt_target(s: Store, i: int) -> Option<EntityId> {
    let e = s.entities@[i];
    match (e.data, e.position) {
        (EntityData::Belt(BeltData(direction), _), Some(p)) => if e.ticking {
            match p.move_by_spec(direction, 1) {
                Some(cell) => s.world.cell(cell).entity_spec(),
                None => None,
            }
        } else {
            None
        },
        _ => None,
    }
}

/// What one tick does to one belt: transfer the belt's held stack into the
/// entity on the cell it faces, or change nothing when there is no such
/// entity or either half of the transfer fails to verify.
pub open spec fn belt_step_rel(pre: Store, post: Store, i: int) -> bool {
    match belt_target(pre, i) {
        Some(u) => {
            let op = VerifyOperation::Remove(None, None);
            if pre.swap_ok(id_at(pre, i), u, op) {
                Store::swap_applied(pre, post, id_at(pre, i), u, op)
            } else {
                post == pre
            }
        },
        None => post == pre,
    }
}

/// One belt step, as a step function over registry indices.
pub open spec fn belt_step_fn() -> spec_fn(Store, Store, int) -> bool {
    |pre: Store, post: Store, i: int| belt_step_rel(pre, post, i)
}

/// Advances every ticking belt, in registry order: each verifies a removal
/// of its whole stack against its own inventory and an addition of the
/// same items against the downstream entity it faces, and commits both
/// halves or neither.
pub fn belt_tick(store: &mut Store)
    requires
        old(store).wf(),
    ensures
        final(store).wf(),
        frame_preserved(*old(store), *final(store)),
        run_rel(
            *old(store),
            *final(store),
            Seq::new(old(store).entities@.len(), |k: int| k),
            belt_step_fn(),
        ),
        final(store).global_total() == old(store).global_total(),
{
    let n = store.entities.len();
    let mut i: usize = 0;
    while i < n
        invariant
            store.wf(),
            n == store.entities@.len(),
            i <= n,
            frame_preserved(*old(store), *store),
            run_rel(*old(store), *store, Seq::new(i as nat, |k: int| k), belt_step_fn()),
            store.global_total() == old(store).global_total(),
        decreases n - i,
    {
        let ghost pre = *store;
        let target: Option<EntityId> = {
            let entry = &store.entities[i];
            if entry.ticking {
                match (&entry.data, &entry.position) {
                    (EntityData::Belt(BeltData(direction), _), Some(p)) => {
                        match p.move_by(*direction, 1) {
                            Some(cell) => store.world.get(cell).entity(),
                            None => None,
                        }
                    },
                    _ => None,
                }
            } else {
                None
            }
        };
        match target {
            Some(u) => {
                let id = EntityId { index: i, kind: store.entities[i].data.kind() };
                store.swap_between(id, u, VerifyOperation::Remove(None, None));
            },
            None => {},
        }
        proof {
            assert(belt_step_rel(pre, *store, i as int));
            lemma_run_rel_snoc(
                *old(store),
                pre,
                *store,
                Seq::new(i as nat, |k: int| k),
                i as int,
                belt_step_fn(),
            );
            assert(Seq::new(i as nat, |k: int| k).push(i as int) =~= Seq::new(
                (i + 1) as nat,
                |k: int| k,
            ));
        }
        i += 1;
    }
}

/// The pair of entities a ticking pusher relays between: the one on the
/// cell behind it and the one on the cell it faces.
pub open spec fn pusher_pair(s: Store, i: int) -> Option<(EntityId, EntityId)> {
    let e = s.entities@[i];
    match (e.data, e.position) {
        (EntityData::Pusher(_, direction), Some(p)) => if e.ticking {
            match (p.move_by_spec(direction.flip_spec(), 1), p.move_by_spec(direction, 1)) {
                (Some(back_cell), Some(front_cell)) => match (
                    s.world.cell(back_cell).entity_spec(),
                    s.world.cell(front_cell).entity_spec(),
                ) {
                    (Some(back), Some(front)) => Some((back, front)),
                    _ => None,
                },
                _ => None,
            }
        } else {
            None
        },
        _ => None,
    }
}

/// What one tick does to one pusher: pull the whole stack of the entity
/// behind it into the entity in front of it, or change nothing when either
/// neighbor is missing or either half of the transfer fails to verify.
pub open spec fn pusher_step_rel(pre: Store, post: Store, i: int) -> bool {
    match pusher_pair(pre, i) {
        Some((back, front)) => {
            let op = VerifyOperation::Remove(None, None);
            if pre.swap_ok(back, front, op) {
                Store::swap_applied(pre, post, back, front, op)
            } else {
                post == pre
            }
        },
        None => post == pre,
    }
}

/// One pusher step, as a step function over registry indices.
pub open spec fn pusher_step_fn() -> spec_fn(Store, Store, int) -> bool {
    |pre: Store, post: Store, i: int| pusher_step_rel(pre, post, i)
}

/// Advances every ticking pusher, in registry order: each swaps the whole
/// stack of its back neighbor into its front neighbor, committing both
/// halves or neither. The pusher itself holds nothing.
pub fn pusher_tick(store: &mut Store)
    requires
        old(store).wf(),
    ensures
        final(store).wf(),
        frame_preserved(*old(store), *final(store)),
        run_rel(
            *old(store),
            *final(store),
            Seq::new(old(store).entities@.len(), |k: int| k),
            pusher_step_fn(),
        ),
        final(store).global_total() == old(store).global_total(),
{
    let n = store.entities.len();
    let mut i: usize = 0;
    while i < n
        invariant
            store.wf(),
            n == store.entities@.len(),
            i <= n,
            frame_preserved(*old(store), *store),
            run_rel(*old(store), *store, Seq::new(i as nat, |k: int| k), pusher_step_fn()),
            store.global_total() == old(store).global_total(),
        decreases n - i,
    {
        let ghost pre = *store;
        let pair: Option<(EntityId, EntityId)> = {
            let entry = &store.entities[i];
            if entry.ticking {
                match (&entry.data, &entry.position) {
                    (EntityData::Pusher(_, direction), Some(p)) => {
                        let back_cell = p.move_by(direction.flip(), 1);
                        let front_cell = p.move_by(*direction, 1);
                        match (back_cell, front_cell) {
                            (Some(bc), Some(fc)) => {
                                match (store.world.get(bc).entity(), store.world.get(fc).entity()) {
                                    (Some(back), Some(front)) => Some((back, front)),
                                    _ => None,
                                }
                            },
                            _ => None,
                        }
                    },
                    _ => None,
                }
            } else {
                None
            }
        };
        match pair {
            Some((back, front)) => {
                store.swap_between(back, front, VerifyOperation::Remove(None, None));
            },
            None => {},
        }
        proof {
            assert(pusher_step_rel(pre, *store, i as int));
            lemma_run_rel_snoc(
                *old(store),
                pre,
                *store,
                Seq::new(i as nat, |k: int| k),
                i as int,
                pusher_step_fn(),
            );
            assert(Seq::new(i as nat, |k: int| k).push(i as int) =~= Seq::new(
                (i + 1) as nat,
                |k: int| k,
            ));
        }
        i += 1;
    }
}

/// What one pod pass does to a store.
pub open spec fn pod_pass_rel(pre: Store, post: Store) -> bool {
    &&& frame_preserved(pre, post)
    &&& forall|i: int|
        0 <= i < pre.entities@.len() ==> pod_step_rel(
            pre.entities@[i],
            #[trigger] post.entities@[i],
        )
}

/// What one belt pass does to a store.
pub open spec fn belt_pass_rel(pre: Store, post: Store) -> bool {
    &&& frame_preserved(pre, post)
    &&& run_rel(pre, post, Seq::new(pre.entities@.len(), |k: int| k), belt_step_fn())
}

/// What one tunnel pass does to a store: nothing at all when the tunnel
/// graph is cyclic, otherwise one transfer per graph node in an order that
/// handles each fed tunnel before its feeder.
pub open spec fn tunnel_pass_rel(pre: Store, post: Store) -> bool {
    &&& frame_preserved(pre, post)
    &&& (crate::tunnel::has_cycle(pre) ==> post == pre)
    &&& (!crate::tunnel::has_cycle(pre) ==> exists|ord: Seq<int>|
        crate::tunnel::valid_order(pre, ord) && run_rel(
            pre,
            post,
            ord,
            crate::tunnel::tunnel_step_fn(),
        ))
}

/// What one pusher pass does to a store.
pub open spec fn pusher_pass_rel(pre: Store, post: Store) -> bool {
    &&& frame_preserved(pre, post)
    &&& run_rel(pre, post, Seq::new(pre.entities@.len(), |k: int| k), pusher_step_fn())
}

/// Frame preservation composes across passes.
pub proof fn lemma_frame_trans(a: Store, b: Store, c: Store)
    requires
        frame_preserved(a, b),
        frame_preserved(b, c),
    ensures
        frame_preserved(a, c),
{
    assert forall|i: int|
        0 <= i < a.entities@.len() implies {
        &&& (#[trigger] c.entities@[i]).position == a.entities@[i].position
        &&& c.entities@[i].ticking == a.entities@[i].ticking
        &&& EntityData::same_shape(a.entities@[i].data, c.entities@[i].data)
    } by {
        assert(EntityData::same_shape(a.entities@[i].data, b.entities@[i].data));
        assert(EntityData::same_shape(b.entities@[i].data, c.entities@[i].data));
    }
}

/// Advances the whole simulation by one tick: production first, then the
/// three conveyance passes, in the fixed order pod, belt, tunnel, pusher.
/// One handler's effects reach the next only through committed inventory
/// state.
pub fn tick(store: &mut Store)
    requires
        old(store).wf(),
    ensures
        final(store).wf(),
        frame_preserved(*old(store), *final(store)),
        final(store).global_total() >= old(store).global_total(),
        exists|s1: Store, s2: Store, s3: Store|
            {
                &&& #[trigger] pod_pass_rel(*old(store), s1)
                &&& #[trigger] belt_pass_rel(s1, s2)
                &&& #[trigger] tunnel_pass_rel(s2, s3)
                &&& pusher_pass_rel(s3, *final(store))
            },
{
    pod_tick(store);
    let ghost s1 = *store;
    belt_tick(store);
    let ghost s2 = *store;
    crate::tunnel::tunnel_tick(store);
    let ghost s3 = *store;
    pusher_tick(store);
    proof {
        lemma_frame_trans(*old(store), s1, s2);
        lemma_frame_trans(*old(store), s2, s3);
        lemma_frame_trans(*old(store), s3, *store);
        assert(pod_pass_rel(*old(store), s1) && belt_pass_rel(s1, s2) && tunnel_pass_rel(s2, s3)
            && pusher_pass_rel(s3, *store));
    }
}

} // verus!
