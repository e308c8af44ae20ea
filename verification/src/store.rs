//! The component registry: every simulated entity's typed data, position and
//! tick eligibility, owned in one arena and addressed by [`EntityId`].
//!
//! Two entities take part in one transfer at a time; [`Store::swap_between`]
//! is the registry's "borrow two distinct entities" operation — it fails,
//! rather than aliasing, when both sides name the same entity.

use vstd::prelude::*;

use crate::inventory::inv_contains_item;
use crate::inventory::lemma_modify_items;
use crate::inventory::lemma_modify_total;
use crate::inventory::lemma_remove_gives_stored;
use crate::inventory::lemma_verify_shape;
use crate::inventory::Amount;
use crate::inventory::Inventory;
use crate::inventory::ModifyOperation;
use crate::inventory::PlayerInventory;
use crate::inventory::SimpleInventory;
use crate::inventory::VerifyOperation;
use crate::items::EntityId;
use crate::items::EntityKind;
use crate::items::Item;
use crate::world::Direction;
use crate::world::Position;
use crate::world::World;

verus! {

/// Marker data of the player entity.
#[derive(Debug, Clone, Copy, PartialEq, Eq, Structural)]
pub struct PlayerData;

/// Data of a resource pod: the item kind it produces.
#[derive(Debug, Clone, Copy, PartialEq, Eq, Structural)]
pub struct PodData(pub Item);

/// Data of a belt: the direction it pushes toward.
#[derive(Debug, Clone, Copy, PartialEq, Eq, Structural)]
pub struct BeltData(pub Direction);

/// Marker data of a tunnel; its facing direction is a separate component.
#[derive(Debug, Clone, Copy, PartialEq, Eq, Structural)]
pub struct TunnelData;

/// Marker data of a pusher; its facing direction is a separate component.
#[derive(Debug, Clone, Copy, PartialEq, Eq, Structural)]
pub struct PusherData;

/// The typed data of one entity: a closed union, one variant per entity
/// type, each bundling the type's components.
#[verifier::ext_equal]
pub enum EntityData {
    Player(PlayerData, Inventory),
    Pod(PodData, Inventory),
    Belt(BeltData, Inventory),
    Tunnel(TunnelData, Direction, Inventory),
    Pusher(PusherData, Direction),
}

impl EntityData {
    /// The type tag of this data.
    pub open spec fn kind_spec(self) -> EntityKind {
        match self {
            EntityData::Player(..) => EntityKind::Player,
            EntityData::Pod(..) => EntityKind::Pod,
            EntityData::Belt(..) => EntityKind::Belt,
            EntityData::Tunnel(..) => EntityKind::Tunnel,
            EntityData::Pusher(..) => EntityKind::Pusher,
        }
    }

    /// Returns the type tag of this data.
    pub fn kind(&self) -> (r: EntityKind)
        ensures
            r == self.kind_spec(),
    {
        match self {
            EntityData::Player(..) => EntityKind::Player,
            EntityData::Pod(..) => EntityKind::Pod,
            EntityData::Belt(..) => EntityKind::Belt,
            EntityData::Tunnel(..) => EntityKind::Tunnel,
            EntityData::Pusher(..) => EntityKind::Pusher,
        }
    }

    /// The inventory embedded in this data, for the types that hold items.
    pub open spec fn inventory_spec(self) -> Option<Inventory> {
        match self {
            EntityData::Player(_, inv) => Some(inv),
            EntityData::Pod(_, inv) => Some(inv),
            EntityData::Belt(_, inv) => Some(inv),
            EntityData::Tunnel(_, _, inv) => Some(inv),
            EntityData::Pusher(..) => None,
        }
    }

    /// Whether two data values are the same except possibly for the
    /// embedded inventory.
    pub open spec fn same_shape(pre: EntityData, post: EntityData) -> bool {
        match (pre, post) {
            (EntityData::Player(a, _), EntityData::Player(b, _)) => a == b,
            (EntityData::Pod(a, _), EntityData::Pod(b, _)) => a == b,
            (EntityData::Belt(a, _), EntityData::Belt(b, _)) => a == b,
            (EntityData::Tunnel(a, d1, _), EntityData::Tunnel(b, d2, _)) => a == b && d1 == d2,
            (EntityData::Pusher(a, d1), EntityData::Pusher(b, d2)) => a == b && d1 == d2,
            _ => false,
        }
    }
}

/// One registered entity: its typed data, its position on the grid (absent
/// while the entity is carried in an inventory), and whether the scheduler
/// advances it each tick.
#[verifier::ext_equal]
pub struct Entry {
    pub data: EntityData,
    pub position: Option<Position>,
    pub ticking: bool,
}

/// Whether an item's entity reference, if any, stays below the registry
/// size `n`.
pub open spec fn item_ok(n: int, item: Item) -> bool {
    match item.entity_spec() {
        Some(id) => id.index < n,
        None => true,
    }
}

/// Whether every item stored in `inv` is valid for a registry of size `n`.
pub open spec fn inv_items_ok(n: int, inv: Inventory) -> bool {
    match inv {
        Inventory::Simple(p) => forall|i: int|
            0 <= i < p.slots@.len() ==> item_ok(n, (#[trigger] p.slots@[i]).1),
        Inventory::Player(p) => forall|i: int|
            0 <= i < p.slots@.len() ==> item_ok(n, (#[trigger] p.slots@[i]).0),
    }
}

/// Whether one entry is internally consistent for a registry of size `n`:
/// its inventory is well formed and holds only valid items, and a pod's
/// produced kind is valid.
pub open spec fn entry_ok(n: int, e: Entry) -> bool {
    &&& match e.data.inventory_spec() {
        Some(inv) => inv.wf() && inv_items_ok(n, inv),
        None => true,
    }
    &&& match e.data {
        EntityData::Pod(PodData(resource), _) => item_ok(n, resource),
        _ => true,
    }
}

/// The registry plus the world it populates.
#[verifier::ext_equal]
pub struct Store {
    pub world: World,
    pub entities: Vec<Entry>,
}

impl Store {
    /// Structural invariant: the world is well formed, every entity
    /// reference on the grid is registered, and every entry is internally
    /// consistent.
    pub open spec fn wf(self) -> bool {
        let n = self.entities@.len() as int;
        &&& self.world.wf()
        &&& forall|p: Position| p.on_grid() ==> item_ok(n, #[trigger] self.world.cell(p))
        &&& forall|i: int| 0 <= i < n ==> entry_ok(n, #[trigger] self.entities@[i])
    }

    /// The inventory of entity `id`, if `id` is registered and its type
    /// holds one.
    pub open spec fn inventory_spec(self, id: EntityId) -> Option<Inventory> {
        if id.index < self.entities@.len() {
            self.entities@[id.index as int].data.inventory_spec()
        } else {
            None
        }
    }

    /// An empty store: a fresh world and no entities.
    pub fn new() -> (r: Store)
        ensures
            r.wf(),
            r.entities@.len() == 0,
            r.world.cursor == (Position(0, 0)),
            forall|p: Position| p.on_grid() ==> r.world.cell(p) == Item::Empty,
    {
        Store { world: World::new(), entities: Vec::new() }
    }

    /// Registers a new entity: all of its components enter the registry
    /// atomically, under the next sequential identifier. Entities are never
    /// removed, so the identifier stays valid for the store's lifetime.
    pub fn spawn(&mut self, entry: Entry) -> (id: EntityId)
        requires
            old(self).wf(),
            entry_ok(old(self).entities@.len() as int, entry),
        ensures
            final(self).wf(),
            final(self).world == old(self).world,
            final(self).entities@ == old(self).entities@.push(entry),
            id.index == old(self).entities@.len(),
            id.kind == entry.data.kind_spec(),
    {
        let id = EntityId { index: self.entities.len(), kind: entry.data.kind() };
        self.entities.push(entry);
        proof {
            let n = self.entities@.len() as int;
            assert forall|i: int| 0 <= i < n implies entry_ok(n, #[trigger] self.entities@[i]) by {
                if i < n - 1 {
                    assert(entry_ok(n - 1, self.entities@[i]));
                    lemma_entry_ok_grow(n - 1, n, self.entities@[i]);
                } else {
                    lemma_entry_ok_grow(n - 1, n, entry);
                }
            }
        }
        id
    }

    /// The first registered player entity, in registry order.
    pub open spec fn player_of(self) -> Option<int> {
        crate::inventory::first_from(
            self.entities@.len() as int,
            0,
            |i: int| self.entities@[i].data is Player,
        )
    }

    /// Returns the first registered player entity, if one exists.
    pub fn get_player(&self) -> (r: Option<EntityId>)
        ensures
            r matches Some(id) ==> Some(id.index as int) == self.player_of() && id.index
                < self.entities@.len() && self.entities@[id.index as int].data.kind_spec()
                == EntityKind::Player && id.kind == EntityKind::Player,
            (r is Some) == (self.player_of() is Some),
    {
        let ghost pred = |i: int| self.entities@[i].data is Player;
        let mut i: usize = 0;
        while i < self.entities.len()
            invariant
                i <= self.entities@.len(),
                pred == (|i: int| self.entities@[i].data is Player),
                forall|j: int| 0 <= j < i ==> !(#[trigger] pred(j)),
            decreases self.entities@.len() - i,
        {
            if matches!(self.entities[i].data, EntityData::Player(..)) {
                proof {
                    crate::inventory::lemma_first_from_found(
                        self.entities@.len() as int,
                        0,
                        pred,
                        i as int,
                    );
                }
                return Some(EntityId { index: i, kind: EntityKind::Player });
            }
            i += 1;
        }
        proof {
            crate::inventory::lemma_first_from_none(self.entities@.len() as int, 0, pred);
        }
        None
    }

    /// Moves entity `index` to `position` (or takes it off the grid).
    /// Nothing else in the store changes.
    pub fn set_position(&mut self, index: usize, position: Option<Position>)
        requires
            old(self).wf(),
            index < old(self).entities@.len(),
        ensures
            final(self).wf(),
            final(self).world == old(self).world,
            final(self).entities@.len() == old(self).entities@.len(),
            forall|i: int|
                0 <= i < old(self).entities@.len() && i != index ==> final(self).entities@[i]
                    == old(self).entities@[i],
            final(self).entities@[index as int] == (Entry {
                data: old(self).entities@[index as int].data,
                position,
                ticking: old(self).entities@[index as int].ticking,
            }),
    {
        let entry = &mut self.entities[index];
        entry.position = position;
        proof {
            let n = self.entities@.len() as int;
            assert forall|i: int| 0 <= i < n implies entry_ok(n, #[trigger] self.entities@[i]) by {
                if i != index {
                    assert(self.entities@[i] == old(self).entities@[i]);
                } else {
                    assert(entry_ok(n, old(self).entities@[i]));
                }
            }
        }
    }

    /// The inventory of entity `id`, if it is registered and holds one.
    pub fn inventory(&self, id: EntityId) -> (r: Option<&Inventory>)
        ensures
            (r is Some) == (self.inventory_spec(id) is Some),
            r matches Some(inv) ==> Some(*inv) == self.inventory_spec(id),
    {
        if id.index >= self.entities.len() {
            return None;
        }
        match &self.entities[id.index].data {
            EntityData::Player(_, inv) => Some(inv),
            EntityData::Pod(_, inv) => Some(inv),
            EntityData::Belt(_, inv) => Some(inv),
            EntityData::Tunnel(_, _, inv) => Some(inv),
            EntityData::Pusher(..) => None,
        }
    }

    /// Commits a verified operation against the inventory of entity `id`.
    /// Nothing else in the store changes.
    pub fn modify_inventory(&mut self, id: EntityId, operation: ModifyOperation)
        requires
            old(self).inventory_spec(id) matches Some(inv) && inv.wf() && inv.valid_modify(
                operation,
            ),
        ensures
            final(self).world == old(self).world,
            final(self).entities@.len() == old(self).entities@.len(),
            forall|i: int|
                0 <= i < old(self).entities@.len() && i != id.index
                    ==> final(self).entities@[i] == old(self).entities@[i],
            entry_modified(
                old(self).entities@[id.index as int],
                final(self).entities@[id.index as int],
                operation,
            ),
    {
        let entry = &mut self.entities[id.index];
        match &mut entry.data {
            EntityData::Player(_, inv) => inv.modify(operation),
            EntityData::Pod(_, inv) => inv.modify(operation),
            EntityData::Belt(_, inv) => inv.modify(operation),
            EntityData::Tunnel(_, _, inv) => inv.modify(operation),
            EntityData::Pusher(..) => {
                proof {
                    assert(false);
                }
            },
        }
    }
}

impl Store {
    /// The total amount stored by entity `id`, zero when it holds no
    /// inventory.
    pub open spec fn total_at(self, id: EntityId) -> int {
        match self.inventory_spec(id) {
            Some(inv) => inv.total(),
            None => 0,
        }
    }

    /// Whether a transfer from `a` into `b` can commit: the two sides are
    /// distinct registered entities with inventories, and both halves of the
    /// transfer verify.
    pub open spec fn swap_ok(self, a: EntityId, b: EntityId, operation: VerifyOperation) -> bool {
        match (self.inventory_spec(a), self.inventory_spec(b)) {
            (Some(ia), Some(ib)) => a.index != b.index && Inventory::swap_spec(ia, ib, operation)
                is Some,
            _ => false,
        }
    }

    /// How a committed transfer relates the store before to the store
    /// after: the world and every uninvolved entity are untouched, and the
    /// two sides' inventories are rewritten by the verified halves.
    pub open spec fn swap_applied(
        pre: Store,
        post: Store,
        a: EntityId,
        b: EntityId,
        operation: VerifyOperation,
    ) -> bool {
        match (pre.inventory_spec(a), pre.inventory_spec(b)) {
            (Some(ia), Some(ib)) => match Inventory::swap_spec(ia, ib, operation) {
                Some((m1, m2)) => {
                    &&& post.world == pre.world
                    &&& post.entities@.len() == pre.entities@.len()
                    &&& forall|i: int|
                        0 <= i < pre.entities@.len() && i != a.index && i != b.index
                            ==> post.entities@[i] == pre.entities@[i]
                    &&& entry_modified(
                        pre.entities@[a.index as int],
                        post.entities@[a.index as int],
                        m1,
                    )
                    &&& entry_modified(
                        pre.entities@[b.index as int],
                        post.entities@[b.index as int],
                        m2,
                    )
                },
                None => false,
            },
            _ => false,
        }
    }

    /// Transfers items from entity `a` into entity `b`: verifies the
    /// removal against `a`'s inventory and an addition of the amount
    /// actually removed against `b`'s, then commits both halves, or
    /// neither. Asking to involve one entity twice fails rather than
    /// aliasing. The total across the two inventories is conserved, and on
    /// failure the store does not change at all.
    pub fn swap_between(&mut self, a: EntityId, b: EntityId, operation: VerifyOperation) -> (r:
        Option<()>)
        requires
            old(self).wf(),
            operation is Remove,
        ensures
            final(self).wf(),
            (r is Some) == old(self).swap_ok(a, b, operation),
            r is None ==> *final(self) == *old(self),
            r is Some ==> Self::swap_applied(*old(self), *final(self), a, b, operation),
            r is Some ==> final(self).total_at(a) + final(self).total_at(b) == old(self).total_at(
                a,
            ) + old(self).total_at(b),
            final(self).global_total() == old(self).global_total(),
    {
        if a.index == b.index {
            return None;
        }
        let r1 = match self.inventory(a) {
            Some(inv_a) => inv_a.verify(operation),
            None => {
                return None;
            },
        };
        let ghost ia = self.inventory_spec(a)->Some_0;
        let (m1, before, after) = match r1 {
            Some(t) => t,
            None => {
                return None;
            },
        };
        proof {
            lemma_store_inv_wf(*self, a);
            lemma_verify_shape(ia, operation);
        }
        let delta = before.0 - after.0;
        let add_op = VerifyOperation::Add(m1.item, delta);
        let r2 = match self.inventory(b) {
            Some(inv_b) => inv_b.verify(add_op),
            None => {
                return None;
            },
        };
        let ghost ib = self.inventory_spec(b)->Some_0;
        let (m2, b2, a2) = match r2 {
            Some(t) => t,
            None => {
                return None;
            },
        };
        proof {
            lemma_store_inv_wf(*self, b);
            lemma_verify_shape(ib, add_op);
        }
        self.modify_inventory(a, m1);
        self.modify_inventory(b, m2);
        proof {
            let n = self.entities@.len() as int;
            let ia2 = self.entities@[a.index as int].data.inventory_spec()->Some_0;
            let ib2 = self.entities@[b.index as int].data.inventory_spec()->Some_0;
            lemma_modify_total(ia, ia2, operation, m1, before.0, after.0);
            lemma_modify_total(ib, ib2, add_op, m2, b2.0, a2.0);
            lemma_global_two_updates(*old(self), *self, a.index as int, b.index as int);
            lemma_remove_gives_stored(ia, operation);
            assert(inv_contains_item(ia, m1.item));
            assert(item_ok(n, m1.item)) by {
                match ia {
                    Inventory::Simple(p) => {
                        let w = choose|w: int|
                            0 <= w < p.slots@.len() && (#[trigger] p.slots@[w]).1 == m1.item;
                        assert(item_ok(n, p.slots@[w].1));
                    },
                    Inventory::Player(p) => {
                        let w = choose|w: int|
                            0 <= w < p.slots@.len() && (#[trigger] p.slots@[w]).0 == m1.item;
                        assert(item_ok(n, p.slots@[w].0));
                    },
                }
            }
            assert forall|i: int| 0 <= i < n implies entry_ok(n, #[trigger] self.entities@[i]) by {
                if i == a.index {
                    lemma_modify_items(ia, ia2, m1);
                    lemma_entry_still_ok(
                        n,
                        old(self).entities@[i],
                        self.entities@[i],
                        m1,
                        ia,
                        ia2,
                    );
                } else if i == b.index {
                    lemma_modify_items(ib, ib2, m2);
                    lemma_entry_still_ok(
                        n,
                        old(self).entities@[i],
                        self.entities@[i],
                        m2,
                        ib,
                        ib2,
                    );
                } else {
                    assert(self.entities@[i] == old(self).entities@[i]);
                }
            }
        }
        Some(())
    }
}

/// The total amount stored across a sequence of per-entity totals.
pub open spec fn sum_totals(s: Seq<int>) -> int
    decreases s.len(),
{
    if s.len() == 0 {
        0
    } else {
        s[0] + sum_totals(s.drop_first())
    }
}

proof fn lemma_sum_totals_update(s: Seq<int>, i: int, v: int)
    requires
        0 <= i < s.len(),
    ensures
        sum_totals(s.update(i, v)) == sum_totals(s) - s[i] + v,
    decreases s.len(),
{
    if i == 0 {
        assert(s.update(0, v).drop_first() =~= s.drop_first());
    } else {
        assert(s.update(i, v).drop_first() =~= s.drop_first().update(i - 1, v));
        lemma_sum_totals_update(s.drop_first(), i - 1, v);
    }
}

/// The total amount one entry stores; an inventory-less entity stores
/// nothing.
pub open spec fn entry_total(e: Entry) -> int {
    match e.data.inventory_spec() {
        Some(inv) => inv.total(),
        None => 0,
    }
}

impl Store {
    /// The total amount stored across every inventory of the store.
    pub open spec fn global_total(self) -> int {
        sum_totals(self.entities@.map_values(|e: Entry| entry_total(e)))
    }
}

/// When only the entries at `ai` and `bi` changed, the global total moved
/// by exactly their two deltas.
proof fn lemma_global_two_updates(pre: Store, post: Store, ai: int, bi: int)
    requires
        post.entities@.len() == pre.entities@.len(),
        0 <= ai < pre.entities@.len(),
        0 <= bi < pre.entities@.len(),
        ai != bi,
        forall|i: int|
            0 <= i < pre.entities@.len() && i != ai && i != bi ==> post.entities@[i]
                == pre.entities@[i],
    ensures
        post.global_total() == pre.global_total() - entry_total(pre.entities@[ai]) - entry_total(
            pre.entities@[bi],
        ) + entry_total(post.entities@[ai]) + entry_total(post.entities@[bi]),
{
    let f = |e: Entry| entry_total(e);
    let s0 = pre.entities@.map_values(f);
    assert(post.entities@.map_values(f) =~= s0.update(ai, entry_total(post.entities@[ai])).update(
        bi,
        entry_total(post.entities@[bi]),
    ));
    lemma_sum_totals_update(s0, ai, entry_total(post.entities@[ai]));
    lemma_sum_totals_update(
        s0.update(ai, entry_total(post.entities@[ai])),
        bi,
        entry_total(post.entities@[bi]),
    );
}

/// When only the entry at `ai` changed, the global total moved by exactly
/// its delta.
pub proof fn lemma_global_one_update(pre: Store, post: Store, ai: int)
    requires
        post.entities@.len() == pre.entities@.len(),
        0 <= ai < pre.entities@.len(),
        forall|i: int|
            0 <= i < pre.entities@.len() && i != ai ==> post.entities@[i] == pre.entities@[i],
    ensures
        post.global_total() == pre.global_total() - entry_total(pre.entities@[ai]) + entry_total(
            post.entities@[ai],
        ),
{
    let f = |e: Entry| entry_total(e);
    let s0 = pre.entities@.map_values(f);
    assert(post.entities@.map_values(f) =~= s0.update(ai, entry_total(post.entities@[ai])));
    lemma_sum_totals_update(s0, ai, entry_total(post.entities@[ai]));
}

/// Whether a tick pass may lead from `pre` to `post`: the world, every
/// entity's position, tick flag and non-inventory data are untouched; only
/// inventories move.
pub open spec fn frame_preserved(pre: Store, post: Store) -> bool {
    &&& post.world == pre.world
    &&& post.entities@.len() == pre.entities@.len()
    &&& forall|i: int|
        0 <= i < pre.entities@.len() ==> {
            &&& (#[trigger] post.entities@[i]).position == pre.entities@[i].position
            &&& post.entities@[i].ticking == pre.entities@[i].ticking
            &&& EntityData::same_shape(pre.entities@[i].data, post.entities@[i].data)
        }
}

/// Whether `post` is reachable from `pre` by performing `step` once for
/// each element of `steps`, in order.
pub open spec fn run_rel(
    pre: Store,
    post: Store,
    steps: Seq<int>,
    step: spec_fn(Store, Store, int) -> bool,
) -> bool
    decreases steps.len(),
{
    if steps.len() == 0 {
        post == pre
    } else {
        exists|mid: Store| #[trigger]
            step(pre, mid, steps[0]) && run_rel(mid, post, steps.drop_first(), step)
    }
}

/// A run extends by one step at its end.
pub proof fn lemma_run_rel_snoc(
    pre: Store,
    mid: Store,
    post: Store,
    steps: Seq<int>,
    k: int,
    step: spec_fn(Store, Store, int) -> bool,
)
    requires
        run_rel(pre, mid, steps, step),
        step(mid, post, k),
    ensures
        run_rel(pre, post, steps.push(k), step),
    decreases steps.len(),
{
    if steps.len() == 0 {
        assert(mid == pre);
        assert(steps.push(k)[0] == k);
        assert(steps.push(k).drop_first() =~= Seq::<int>::empty());
        assert(run_rel(post, post, Seq::<int>::empty(), step));
        assert(step(pre, post, steps.push(k)[0]));
    } else {
        let mid0 = choose|m: Store| #[trigger]
            step(pre, m, steps[0]) && run_rel(m, mid, steps.drop_first(), step);
        lemma_run_rel_snoc(mid0, mid, post, steps.drop_first(), k, step);
        assert(steps.push(k).drop_first() =~= steps.drop_first().push(k));
        assert(steps.push(k)[0] == steps[0]);
        assert(step(pre, mid0, steps.push(k)[0]) && run_rel(
            mid0,
            post,
            steps.push(k).drop_first(),
            step,
        ));
    }
}

impl Store {
    /// Commits a verified operation whose item is registered, against the
    /// inventory of entity `id`. The store stays well formed and nothing
    /// but that inventory changes.
    pub fn commit_inventory(&mut self, id: EntityId, operation: ModifyOperation)
        requires
            old(self).wf(),
            old(self).inventory_spec(id) matches Some(inv) && inv.valid_modify(operation),
            item_ok(old(self).entities@.len() as int, operation.item),
        ensures
            final(self).wf(),
            final(self).world == old(self).world,
            final(self).entities@.len() == old(self).entities@.len(),
            forall|i: int|
                0 <= i < old(self).entities@.len() && i != id.index
                    ==> final(self).entities@[i] == old(self).entities@[i],
            entry_modified(
                old(self).entities@[id.index as int],
                final(self).entities@[id.index as int],
                operation,
            ),
            frame_preserved(*old(self), *final(self)),
    {
        proof {
            lemma_store_inv_wf(*self, id);
        }
        let ghost ia = self.inventory_spec(id)->Some_0;
        self.modify_inventory(id, operation);
        proof {
            let n = self.entities@.len() as int;
            let ia2 = self.entities@[id.index as int].data.inventory_spec()->Some_0;
            lemma_modify_items(ia, ia2, operation);
            assert forall|i: int| 0 <= i < n implies entry_ok(n, #[trigger] self.entities@[i]) by {
                if i == id.index {
                    lemma_entry_still_ok(
                        n,
                        old(self).entities@[i],
                        self.entities@[i],
                        operation,
                        ia,
                        ia2,
                    );
                } else {
                    assert(self.entities@[i] == old(self).entities@[i]);
                }
            }
        }
    }
}

/// A well-formed store's inventories are well formed and hold only valid
/// items.
pub proof fn lemma_store_inv_wf(s: Store, id: EntityId)
    requires
        s.wf(),
        s.inventory_spec(id) is Some,
    ensures
        s.inventory_spec(id) matches Some(inv) ==> inv.wf() && inv_items_ok(
            s.entities@.len() as int,
            inv,
        ),
{
    assert(entry_ok(s.entities@.len() as int, s.entities@[id.index as int]));
}

/// After a commit whose item is valid, the entry is still consistent.
proof fn lemma_entry_still_ok(
    n: int,
    pre: Entry,
    post: Entry,
    m: ModifyOperation,
    ia: Inventory,
    ia2: Inventory,
)
    requires
        entry_ok(n, pre),
        entry_modified(pre, post, m),
        item_ok(n, m.item),
        pre.data.inventory_spec() == Some(ia),
        post.data.inventory_spec() == Some(ia2),
        forall|it: Item|
            inv_contains_item(ia2, it) ==> inv_contains_item(ia, it) || it == m.item || it
                == Item::Empty,
    ensures
        entry_ok(n, post),
{
    match ia2 {
        Inventory::Simple(p) => {
            assert forall|i: int|
                0 <= i < p.slots@.len() implies item_ok(n, (#[trigger] p.slots@[i]).1) by {
                assert(inv_contains_item(ia2, p.slots@[i].1));
                if inv_contains_item(ia, p.slots@[i].1) {
                    match ia {
                        Inventory::Simple(q) => {
                            let w = choose|w: int|
                                0 <= w < q.slots@.len() && (#[trigger] q.slots@[w]).1
                                    == p.slots@[i].1;
                            assert(item_ok(n, q.slots@[w].1));
                        },
                        Inventory::Player(q) => {
                            let w = choose|w: int|
                                0 <= w < q.slots@.len() && (#[trigger] q.slots@[w]).0
                                    == p.slots@[i].1;
                            assert(item_ok(n, q.slots@[w].0));
                        },
                    }
                }
            }
        },
        Inventory::Player(p) => {
            assert forall|i: int|
                0 <= i < p.slots@.len() implies item_ok(n, (#[trigger] p.slots@[i]).0) by {
                assert(inv_contains_item(ia2, p.slots@[i].0));
                if inv_contains_item(ia, p.slots@[i].0) {
                    match ia {
                        Inventory::Simple(q) => {
                            let w = choose|w: int|
                                0 <= w < q.slots@.len() && (#[trigger] q.slots@[w]).1
                                    == p.slots@[i].0;
                            assert(item_ok(n, q.slots@[w].1));
                        },
                        Inventory::Player(q) => {
                            let w = choose|w: int|
                                0 <= w < q.slots@.len() && (#[trigger] q.slots@[w]).0
                                    == p.slots@[i].0;
                            assert(item_ok(n, q.slots@[w].0));
                        },
                    }
                }
            }
        },
    }
}

/// Bundles the components of a new belt facing `direction` at `position`:
/// a one-slot buffer, advanced by the scheduler each tick.
pub fn belt_builder(direction: Direction, position: Position) -> (r: Entry)
    ensures
        r.data matches EntityData::Belt(BeltData(d), Inventory::Simple(inv)) && d == direction
            && inv.slots@.len() == 0 && inv.limit == 1,
        r.position == Some(position),
        r.ticking,
        entry_ok(0, r),
{
    Entry {
        data: EntityData::Belt(BeltData(direction), Inventory::Simple(SimpleInventory::new(1))),
        position: Some(position),
        ticking: true,
    }
}

/// Bundles the components of a new pod producing `resource` at `position`:
/// a buffer of one slot capped at one item, so production stalls until the
/// buffer is drained downstream; advanced by the scheduler each tick.
pub fn pod_builder(resource: Item, position: Position) -> (r: Entry)
    ensures
        r.data matches EntityData::Pod(PodData(res), Inventory::Player(inv)) && res == resource
            && inv.slots@.len() == 1 && inv.slots@[0] == (Item::Empty, 0 as Amount)
            && inv.item_limit == 1 && inv.preferred == 0,
        r.position == Some(position),
        r.ticking,
        item_ok(0, resource) ==> entry_ok(0, r),
{
    Entry {
        data: EntityData::Pod(PodData(resource), Inventory::Player(PlayerInventory::new(1, 1))),
        position: Some(position),
        ticking: true,
    }
}

/// Bundles the components of a new tunnel facing `direction` at `position`:
/// a one-slot buffer, advanced by the scheduler each tick.
pub fn tunnel_builder(direction: Direction, position: Position) -> (r: Entry)
    ensures
        r.data matches EntityData::Tunnel(TunnelData, d, Inventory::Simple(inv)) && d == direction
            && inv.slots@.len() == 0 && inv.limit == 1,
        r.position == Some(position),
        r.ticking,
        entry_ok(0, r),
{
    Entry {
        data: EntityData::Tunnel(TunnelData, direction, Inventory::Simple(SimpleInventory::new(1))),
        position: Some(position),
        ticking: true,
    }
}

/// Bundles the components of a new pusher facing `direction` at `position`:
/// no inventory of its own, advanced by the scheduler each tick.
pub fn pusher_builder(direction: Direction, position: Position) -> (r: Entry)
    ensures
        r.data == EntityData::Pusher(PusherData, direction),
        r.position == Some(position),
        r.ticking,
        entry_ok(0, r),
{
    Entry { data: EntityData::Pusher(PusherData, direction), position: Some(position), ticking: true }
}

/// Bundles the components of the player at `position`: a nine-slot
/// inventory capped at 128 items per slot, registered but never ticked.
pub fn player_builder(position: Position) -> (r: Entry)
    ensures
        r.data matches EntityData::Player(PlayerData, Inventory::Player(inv)) && inv.slots@.len()
            == 9 && inv.item_limit == 128 && inv.preferred == 0 && (forall|i: int|
            0 <= i < 9 ==> inv.slots@[i] == (Item::Empty, 0 as Amount)),
        r.position == Some(position),
        !r.ticking,
        entry_ok(0, r),
{
    Entry {
        data: EntityData::Player(PlayerData, Inventory::Player(PlayerInventory::new(9, 128))),
        position: Some(position),
        ticking: false,
    }
}

/// Entry consistency is monotone in the registry size.
proof fn lemma_entry_ok_grow(n: int, m: int, e: Entry)
    requires
        n <= m,
        entry_ok(n, e),
    ensures
        entry_ok(m, e),
{
}

/// How committing `operation` against an entry's inventory relates the
/// entry before to the entry after: position, tick flag and all other data
/// are unchanged, and the inventory is rewritten as `modify_rel` says and
/// stays well formed.
pub open spec fn entry_modified(pre: Entry, post: Entry, operation: ModifyOperation) -> bool {
    &&& post.position == pre.position
    &&& post.ticking == pre.ticking
    &&& EntityData::same_shape(pre.data, post.data)
    &&& match (pre.data.inventory_spec(), post.data.inventory_spec()) {
        (Some(a), Some(b)) => Inventory::modify_rel(a, b, operation) && b.wf(),
        _ => false,
    }
}

} // verus!
