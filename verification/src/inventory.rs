//! The transactional inventory protocol.
//!
//! Every mutation of an inventory goes through two phases: [`verify`]
//! computes, without mutating anything, whether an operation can be applied
//! and what exactly it would do; [`modify`] commits a previously verified
//! operation. A transfer between two inventories commits either both of its
//! halves or neither, so items are never created or destroyed.
//!
//! Two inventory shapes exist. A [`SimpleInventory`] is a sparse map from a
//! slot key (derived from the item kind) to an `(item, amount)` entry, with a
//! limit on the number of distinct slots; entity buffers use it. A
//! [`PlayerInventory`] is a fixed row of slots addressed by index, with a cap
//! on the amount each slot may hold and a preferred slot that unnamed
//! removals try first.
//!
//! Removal policy: a removal that names no item takes from the oldest
//! occupied slot of a [`SimpleInventory`], and from the preferred slot of a
//! [`PlayerInventory`] if that slot is occupied, else from its first occupied
//! slot. A removal that names no amount takes everything the chosen slot
//! holds.
//!
//! [`verify`]: Inventory::verify
//! [`modify`]: Inventory::modify

use vstd::prelude::*;

use crate::items::Item;

verus! {

/// Key of one slot within an inventory.
pub type Slot = u64;

/// A quantity of items.
pub type Amount = u64;

/// The amount a slot held before a verified operation.
pub struct Before(pub Amount);

/// The amount a slot would hold after a verified operation.
pub struct After(pub Amount);

/// A requested inventory operation, before verification.
#[derive(Debug, Clone, Copy, PartialEq, Eq, Structural)]
pub enum VerifyOperation {
    /// Add `Amount` items of the given kind.
    Add(Item, Amount),
    /// Remove items: of the named kind, or of an unnamed kind chosen by the
    /// inventory; the named amount, or everything the chosen slot holds.
    Remove(Option<Item>, Option<Amount>),
}

/// A verified, committable operation: set `slot` to `amount` of `item`,
/// deleting the slot when the amount is zero.
#[derive(Debug, Clone, Copy, PartialEq, Eq, Structural)]
pub struct ModifyOperation {
    pub slot: Slot,
    pub item: Item,
    pub amount: Amount,
}

/// The slot key of an item kind. Raw kinds get small fixed keys; an
/// entity-bearing item derives its key from the entity's index, marked in
/// the top bits so the families stay apart.
pub open spec fn hash_spec(item: Item) -> Slot {
    match item {
        Item::Empty => 0,
        Item::RawIron => 1,
        Item::RawCopper => 2,
        Item::RawGold => 3,
        Item::RawSilver => 4,
        Item::RawTin => 5,
        Item::Pod(e) => (e.index as u64) | 0x4000_0000_0000_0000,
        Item::Tunnel(e) => (e.index as u64) | 0x8000_0000_0000_0000,
    }
}

/// Returns the slot key under which an inventory keeps items of this kind.
pub fn hash(item: &Item) -> (r: Slot)
    ensures
        r == hash_spec(*item),
{
    match item {
        Item::Empty => 0,
        Item::RawIron => 1,
        Item::RawCopper => 2,
        Item::RawGold => 3,
        Item::RawSilver => 4,
        Item::RawTin => 5,
        Item::Pod(e) => (e.index as u64) | 0x4000_0000_0000_0000,
        Item::Tunnel(e) => (e.index as u64) | 0x8000_0000_0000_0000,
    }
}

/// The total amount stored across a sequence of amounts.
pub open spec fn sum_amounts(s: Seq<Amount>) -> int
    decreases s.len(),
{
    if s.len() == 0 {
        0
    } else {
        s[0] + sum_amounts(s.drop_first())
    }
}

proof fn lemma_sum_push(s: Seq<Amount>, v: Amount)
    ensures
        sum_amounts(s.push(v)) == sum_amounts(s) + v,
    decreases s.len(),
{
    if s.len() == 0 {
        assert(s.push(v).drop_first() =~= Seq::<Amount>::empty());
        assert(sum_amounts(s.push(v)) == s.push(v)[0] + sum_amounts(Seq::<Amount>::empty()));
        assert(s.push(v)[0] == v);
    } else {
        assert(s.push(v).drop_first() =~= s.drop_first().push(v));
        lemma_sum_push(s.drop_first(), v);
    }
}

proof fn lemma_sum_update(s: Seq<Amount>, i: int, v: Amount)
    requires
        0 <= i < s.len(),
    ensures
        sum_amounts(s.update(i, v)) == sum_amounts(s) - s[i] + v,
    decreases s.len(),
{
    if i == 0 {
        assert(s.update(0, v).drop_first() =~= s.drop_first());
    } else {
        assert(s.update(i, v).drop_first() =~= s.drop_first().update(i - 1, v));
        lemma_sum_update(s.drop_first(), i - 1, v);
    }
}

proof fn lemma_sum_remove(s: Seq<Amount>, i: int)
    requires
        0 <= i < s.len(),
    ensures
        sum_amounts(s.remove(i)) == sum_amounts(s) - s[i],
    decreases s.len(),
{
    if i == 0 {
        assert(s.remove(0) =~= s.drop_first());
    } else {
        assert(s.remove(i).drop_first() =~= s.drop_first().remove(i - 1));
        lemma_sum_remove(s.drop_first(), i - 1);
    }
}

/// One stored entry of a [`SimpleInventory`]: slot key, item kind, amount.
pub type SimpleEntry = (Slot, Item, Amount);

/// Whether some entry of `s` uses the slot key `k`.
pub open spec fn has_key(s: Seq<SimpleEntry>, k: Slot) -> bool {
    exists|i: int| 0 <= i < s.len() && s[i].0 == k
}

/// The index of the entry using slot key `k` (meaningful when the keys of
/// `s` are distinct and `k` is among them).
pub open spec fn key_index(s: Seq<SimpleEntry>, k: Slot) -> int {
    choose|i: int| 0 <= i < s.len() && s[i].0 == k
}

/// A bounded sparse inventory: distinct slot keys mapping to positive
/// amounts, at most `limit` slots. Entries are kept oldest first.
#[verifier::ext_equal]
pub struct SimpleInventory {
    pub slots: Vec<SimpleEntry>,
    pub limit: usize,
}

impl SimpleInventory {
    /// Structural invariant: slot keys are distinct and derived from the
    /// stored item, every present amount is positive, and the slot count
    /// never exceeds the limit.
    pub open spec fn wf(self) -> bool {
        &&& forall|i: int, j: int|
            0 <= i < j < self.slots@.len() ==> self.slots@[i].0 != self.slots@[j].0
        &&& forall|i: int| 0 <= i < self.slots@.len() ==> (#[trigger] self.slots@[i]).2 >= 1
        &&& forall|i: int|
            0 <= i < self.slots@.len() ==> (#[trigger] self.slots@[i]).0 == hash_spec(
                self.slots@[i].1,
            )
        &&& self.slots@.len() <= self.limit
    }

    /// Total amount stored, over all slots.
    pub open spec fn total(self) -> int {
        sum_amounts(self.slots@.map_values(|e: SimpleEntry| e.2))
    }

    /// What [`Self::verify`] returns: the committable operation together
    /// with the affected slot's amount before and after, or `None` when the
    /// operation cannot be applied.
    pub open spec fn verify_spec(self, operation: VerifyOperation) -> Option<
        (ModifyOperation, Amount, Amount),
    > {
        let s = self.slots@;
        match operation {
            VerifyOperation::Add(item, amount) => {
                let k = hash_spec(item);
                if has_key(s, k) {
                    let before = s[key_index(s, k)].2;
                    if before + amount <= u64::MAX {
                        Some(
                            (
                                ModifyOperation { slot: k, item, amount: (before + amount) as u64 },
                                before,
                                (before + amount) as u64,
                            ),
                        )
                    } else {
                        None
                    }
                } else if s.len() < self.limit {
                    Some((ModifyOperation { slot: k, item, amount }, 0, amount))
                } else {
                    None
                }
            },
            VerifyOperation::Remove(op_item, op_amount) => {
                let sel: Option<int> = match op_item {
                    Some(it) => {
                        let k = hash_spec(it);
                        if has_key(s, k) && s[key_index(s, k)].1 == it {
                            Some(key_index(s, k))
                        } else {
                            None
                        }
                    },
                    None => if s.len() > 0 {
                        Some(0)
                    } else {
                        None
                    },
                };
                match sel {
                    Some(i) => {
                        let e = s[i];
                        match op_amount {
                            Some(v) => if v <= e.2 {
                                Some(
                                    (
                                        ModifyOperation {
                                            slot: e.0,
                                            item: e.1,
                                            amount: (e.2 - v) as u64,
                                        },
                                        e.2,
                                        (e.2 - v) as u64,
                                    ),
                                )
                            } else {
                                None
                            },
                            None => Some((ModifyOperation { slot: e.0, item: e.1, amount: 0 }, e.2, 0)),
                        }
                    },
                    None => None,
                }
            },
        }
    }

    /// What committing `operation` does to the stored entries: set the
    /// slot's amount, inserting a new youngest slot if needed, or delete the
    /// slot when the amount is zero.
    pub open spec fn modify_spec(s: Seq<SimpleEntry>, operation: ModifyOperation) -> Seq<
        SimpleEntry,
    > {
        if operation.amount == 0 {
            if has_key(s, operation.slot) {
                s.remove(key_index(s, operation.slot))
            } else {
                s
            }
        } else if has_key(s, operation.slot) {
            let i = key_index(s, operation.slot);
            s.update(i, (s[i].0, s[i].1, operation.amount))
        } else {
            s.push((operation.slot, operation.item, operation.amount))
        }
    }

    /// Whether `operation` may be committed against this inventory: it was
    /// verified against this state, so a deletion or an update names a
    /// present slot, and an insertion has room and a key that matches its
    /// item.
    pub open spec fn valid_modify(self, operation: ModifyOperation) -> bool {
        ||| operation.amount == 0
        ||| has_key(self.slots@, operation.slot)
        ||| (self.slots@.len() < self.limit && operation.slot == hash_spec(operation.item))
    }

    /// An empty inventory that may grow to at most `limit` distinct slots.
    pub fn new(limit: usize) -> (r: SimpleInventory)
        ensures
            r.wf(),
            r.slots@.len() == 0,
            r.limit == limit,
    {
        SimpleInventory { slots: Vec::new(), limit }
    }

    /// The stored `(item, amount)` pairs, oldest slot first.
    pub fn slots(&self) -> (r: Vec<(Item, Amount)>)
        ensures
            r@ == self.slots@.map_values(|e: SimpleEntry| (e.1, e.2)),
    {
        let mut r: Vec<(Item, Amount)> = Vec::new();
        let mut i: usize = 0;
        while i < self.slots.len()
            invariant
                i <= self.slots@.len(),
                r@.len() == i,
                forall|j: int|
                    0 <= j < i ==> r@[j] == (self.slots@[j].1, self.slots@[j].2),
            decreases self.slots@.len() - i,
        {
            let e = self.slots[i];
            r.push((e.1, e.2));
            i += 1;
        }
        proof {
            assert(r@ =~= self.slots@.map_values(|e: SimpleEntry| (e.1, e.2)));
        }
        r
    }

    /// The index of the entry keyed `k`, if one exists.
    fn find_key(&self, k: Slot) -> (r: Option<usize>)
        requires
            self.wf(),
        ensures
            r matches Some(i) ==> i < self.slots@.len() && self.slots@[i as int].0 == k
                && i == key_index(self.slots@, k) && has_key(self.slots@, k),
            r is None ==> !has_key(self.slots@, k),
    {
        let mut i: usize = 0;
        while i < self.slots.len()
            invariant
                self.wf(),
                i <= self.slots@.len(),
                forall|j: int| 0 <= j < i ==> self.slots@[j].0 != k,
            decreases self.slots@.len() - i,
        {
            if self.slots[i].0 == k {
                proof {
                    let w = key_index(self.slots@, k);
                    assert(0 <= w < self.slots@.len() && self.slots@[w].0 == k);
                    assert(w == i);
                }
                return Some(i);
            }
            i += 1;
        }
        None
    }

    /// Checks an operation against the current state without mutating it.
    /// Success and the returned triple are exactly [`Self::verify_spec`].
    pub fn verify(&self, operation: VerifyOperation) -> (r: Option<(ModifyOperation, Before, After)>)
        requires
            self.wf(),
        ensures
            (r is Some) == (self.verify_spec(operation) is Some),
            r matches Some((m, b, a)) ==> self.verify_spec(operation) == Some((m, b.0, a.0)),
    {
        match operation {
            VerifyOperation::Add(item, amount) => {
                let k = hash(&item);
                match self.find_key(k) {
                    Some(i) => {
                        let before = self.slots[i].2;
                        match before.checked_add(amount) {
                            Some(after) => Some(
                                (
                                    ModifyOperation { slot: k, item, amount: after },
                                    Before(before),
                                    After(after),
                                ),
                            ),
                            None => None,
                        }
                    },
                    None => {
                        if self.slots.len() < self.limit {
                            Some(
                                (
                                    ModifyOperation { slot: k, item, amount },
                                    Before(0),
                                    After(amount),
                                ),
                            )
                        } else {
                            None
                        }
                    },
                }
            },
            VerifyOperation::Remove(op_item, op_amount) => {
                let sel: usize = match op_item {
                    Some(it) => {
                        let k = hash(&it);
                        match self.find_key(k) {
                            Some(i) => {
                                if self.slots[i].1 == it {
                                    i
                                } else {
                                    return None;
                                }
                            },
                            None => {
                                return None;
                            },
                        }
                    },
                    None => {
                        if self.slots.len() > 0 {
                            0
                        } else {
                            return None;
                        }
                    },
                };
                let e = self.slots[sel];
                let after = match op_amount {
                    Some(v) => match e.2.checked_sub(v) {
                        Some(after) => after,
                        None => {
                            return None;
                        },
                    },
                    None => 0,
                };
                Some(
                    (
                        ModifyOperation { slot: e.0, item: e.1, amount: after },
                        Before(e.2),
                        After(after),
                    ),
                )
            },
        }
    }

    /// Commits a verified operation. The inventory must not have changed
    /// between verification and commit. Afterwards every present slot still
    /// holds a positive amount.
    pub fn modify(&mut self, operation: ModifyOperation)
        requires
            old(self).wf(),
            old(self).valid_modify(operation),
        ensures
            final(self).wf(),
            final(self).limit == old(self).limit,
            final(self).slots@ == Self::modify_spec(old(self).slots@, operation),
    {
        match self.find_key(operation.slot) {
            Some(i) => {
                if operation.amount < 1 {
                    self.slots.remove(i);
                    proof {
                        lemma_modify_wf_remove(old(self).slots@, i as int);
                    }
                } else {
                    let e = self.slots[i];
                    self.slots.set(i, (e.0, e.1, operation.amount));
                }
            },
            None => {
                if operation.amount >= 1 {
                    self.slots.push((operation.slot, operation.item, operation.amount));
                }
            },
        }
    }
}

/// One slot of a [`PlayerInventory`]: item kind and amount. A free slot is
/// `(Item::Empty, 0)`.
pub type PlayerEntry = (Item, Amount);

/// The first index `i` in `j .. len` satisfying `pred`, if any.
pub open spec fn first_from(len: int, j: int, pred: spec_fn(int) -> bool) -> Option<int>
    decreases len - j,
{
    if j >= len {
        None
    } else if pred(j) {
        Some(j)
    } else {
        first_from(len, j + 1, pred)
    }
}

/// The first index satisfying `pred` when the slot `pref` is tried first
/// and the rest are tried in increasing order.
pub open spec fn first_preferred(len: int, pref: int, pred: spec_fn(int) -> bool) -> Option<int> {
    if pred(pref) {
        Some(pref)
    } else {
        first_from(len, 0, pred)
    }
}

/// Whether slot `i` can receive `amount` more items of kind `item` without
/// passing the per-slot cap `limit`.
pub open spec fn add_pred(
    s: Seq<PlayerEntry>,
    limit: Amount,
    item: Item,
    amount: Amount,
    i: int,
) -> bool {
    (s[i].0 == item || s[i].0 == Item::Empty) && s[i].1 + amount <= limit
}

/// Whether slot `i` can yield a removal of `op_item` (any occupied slot when
/// unnamed) of `op_amount` (everything present when unnamed).
pub open spec fn remove_pred(
    s: Seq<PlayerEntry>,
    op_item: Option<Item>,
    op_amount: Option<Amount>,
    i: int,
) -> bool {
    &&& match op_item {
        Some(it) => s[i].0 == it,
        None => s[i].0 != Item::Empty,
    }
    &&& match op_amount {
        Some(v) => s[i].1 >= v,
        None => true,
    }
}

/// The player's inventory: a fixed row of slots addressed by index, each
/// holding at most `item_limit` items, with a preferred slot that unnamed
/// removals and the scan order try first.
#[verifier::ext_equal]
pub struct PlayerInventory {
    pub slots: Vec<PlayerEntry>,
    pub preferred: Slot,
    pub item_limit: Amount,
}

impl PlayerInventory {
    /// Structural invariant: at least one slot, the preferred slot exists,
    /// a slot is empty exactly when its amount is zero, and no amount
    /// passes the per-slot cap.
    pub open spec fn wf(self) -> bool {
        &&& self.slots@.len() >= 1
        &&& self.slots@.len() <= usize::MAX
        &&& self.preferred < self.slots@.len()
        &&& forall|i: int|
            0 <= i < self.slots@.len() ==> (((#[trigger] self.slots@[i]).0 == Item::Empty) <==> (
            self.slots@[i].1 == 0))
        &&& forall|i: int| 0 <= i < self.slots@.len() ==> (#[trigger] self.slots@[i]).1
            <= self.item_limit
    }

    /// Total amount stored, over all slots.
    pub open spec fn total(self) -> int {
        sum_amounts(self.slots@.map_values(|e: PlayerEntry| e.1))
    }

    /// What [`Self::verify`] returns; the affected slot is the first
    /// suitable one in preferred-then-ascending order. The empty marker is
    /// never stored or named, so operations on it fail.
    pub open spec fn verify_spec(self, operation: VerifyOperation) -> Option<
        (ModifyOperation, Amount, Amount),
    > {
        let s = self.slots@;
        match operation {
            VerifyOperation::Add(item, amount) => {
                if item == Item::Empty {
                    None
                } else {
                    match first_preferred(
                        s.len() as int,
                        self.preferred as int,
                        |i: int| add_pred(s, self.item_limit, item, amount, i),
                    ) {
                        Some(i) => Some(
                            (
                                ModifyOperation {
                                    slot: i as Slot,
                                    item,
                                    amount: (s[i].1 + amount) as u64,
                                },
                                s[i].1,
                                (s[i].1 + amount) as u64,
                            ),
                        ),
                        None => None,
                    }
                }
            },
            VerifyOperation::Remove(op_item, op_amount) => {
                if op_item == Some(Item::Empty) {
                    None
                } else {
                    match first_preferred(
                        s.len() as int,
                        self.preferred as int,
                        |i: int| remove_pred(s, op_item, op_amount, i),
                    ) {
                        Some(i) => {
                            let after = match op_amount {
                                Some(v) => (s[i].1 - v) as u64,
                                None => 0,
                            };
                            Some(
                                (
                                    ModifyOperation { slot: i as Slot, item: s[i].0, amount: after },
                                    s[i].1,
                                    after,
                                ),
                            )
                        },
                        None => None,
                    }
                }
            },
        }
    }

    /// What committing `operation` does to the slots: the named slot is set
    /// to the new item and amount, and is marked free when the amount is
    /// zero.
    pub open spec fn modify_spec(s: Seq<PlayerEntry>, operation: ModifyOperation) -> Seq<
        PlayerEntry,
    > {
        if operation.amount == 0 {
            s.update(operation.slot as int, (Item::Empty, 0))
        } else {
            s.update(operation.slot as int, (operation.item, operation.amount))
        }
    }

    /// Whether `operation` may be committed against this inventory.
    pub open spec fn valid_modify(self, operation: ModifyOperation) -> bool {
        &&& operation.slot < self.slots@.len()
        &&& (operation.amount == 0 || (operation.item != Item::Empty && operation.amount
            <= self.item_limit))
    }

    /// A row of `slot_limit` free slots, each holding at most `item_limit`
    /// items.
    pub fn new(slot_limit: usize, item_limit: Amount) -> (r: PlayerInventory)
        requires
            slot_limit >= 1,
        ensures
            r.wf(),
            r.slots@.len() == slot_limit,
            forall|i: int| 0 <= i < slot_limit ==> r.slots@[i] == (Item::Empty, 0 as Amount),
            r.preferred == 0,
            r.item_limit == item_limit,
    {
        let mut slots: Vec<PlayerEntry> = Vec::new();
        let mut i: usize = 0;
        while i < slot_limit
            invariant
                i <= slot_limit,
                slots@.len() == i,
                forall|j: int| 0 <= j < i ==> slots@[j] == (Item::Empty, 0 as Amount),
            decreases slot_limit - i,
        {
            slots.push((Item::Empty, 0));
            i += 1;
        }
        PlayerInventory { slots, preferred: 0, item_limit }
    }

    /// The `(item, amount)` pairs of all slots, free ones included.
    pub fn slots(&self) -> (r: Vec<(Item, Amount)>)
        ensures
            r@ == self.slots@,
    {
        let mut r: Vec<(Item, Amount)> = Vec::new();
        let mut i: usize = 0;
        while i < self.slots.len()
            invariant
                i <= self.slots@.len(),
                r@ == self.slots@.take(i as int),
            decreases self.slots@.len() - i,
        {
            r.push(self.slots[i]);
            proof {
                assert(r@ =~= self.slots@.take(i + 1));
            }
            i += 1;
        }
        proof {
            assert(self.slots@.take(self.slots@.len() as int) =~= self.slots@);
        }
        r
    }

    /// Checks an operation against the current state without mutating it.
    /// Success and the returned triple are exactly [`Self::verify_spec`].
    pub fn verify(&self, operation: VerifyOperation) -> (r: Option<(ModifyOperation, Before, After)>)
        requires
            self.wf(),
        ensures
            (r is Some) == (self.verify_spec(operation) is Some),
            r matches Some((m, b, a)) ==> self.verify_spec(operation) == Some((m, b.0, a.0)),
    {
        match operation {
            VerifyOperation::Add(item, amount) => {
                if matches!(item, Item::Empty) {
                    return None;
                }
                let ghost pred = |i: int| add_pred(self.slots@, self.item_limit, item, amount, i);
                match self.find_first_add(item, amount, Ghost(pred)) {
                    Some(i) => {
                        let before = self.slots[i].1;
                        let after = before + amount;
                        Some(
                            (
                                ModifyOperation { slot: i as Slot, item, amount: after },
                                Before(before),
                                After(after),
                            ),
                        )
                    },
                    None => None,
                }
            },
            VerifyOperation::Remove(op_item, op_amount) => {
                if matches!(op_item, Some(Item::Empty)) {
                    return None;
                }
                let ghost pred = |i: int| remove_pred(self.slots@, op_item, op_amount, i);
                match self.find_first_remove(op_item, op_amount, Ghost(pred)) {
                    Some(i) => {
                        let e = self.slots[i];
                        let after = match op_amount {
                            Some(v) => e.1 - v,
                            None => 0,
                        };
                        Some(
                            (
                                ModifyOperation { slot: i as Slot, item: e.0, amount: after },
                                Before(e.1),
                                After(after),
                            ),
                        )
                    },
                    None => None,
                }
            },
        }
    }

    /// The first slot, preferred first, that can receive the addition.
    fn find_first_add(
        &self,
        item: Item,
        amount: Amount,
        Ghost(pred): Ghost<spec_fn(int) -> bool>,
    ) -> (r: Option<usize>)
        requires
            self.wf(),
            pred == (|i: int| add_pred(self.slots@, self.item_limit, item, amount, i)),
        ensures
            r matches Some(i) ==> i < self.slots@.len() && Some(i as int) == first_preferred(
                self.slots@.len() as int,
                self.preferred as int,
                pred,
            ) && pred(i as int),
            r is None ==> first_preferred(self.slots@.len() as int, self.preferred as int, pred)
                is None,
    {
        let len = self.slots.len();
        let p = self.preferred as usize;
        let e = self.slots[p];
        if (e.0 == item || matches!(e.0, Item::Empty)) && match e.1.checked_add(amount) {
            Some(a) => a <= self.item_limit,
            None => false,
        } {
            return Some(p);
        }
        let mut j: usize = 0;
        while j < len
            invariant
                self.wf(),
                len == self.slots@.len(),
                j <= len,
                pred == (|i: int| add_pred(self.slots@, self.item_limit, item, amount, i)),
                !pred(self.preferred as int),
                forall|q: int| 0 <= q < j ==> !(#[trigger] pred(q)),
            decreases len - j,
        {
            let e = self.slots[j];
            if (e.0 == item || matches!(e.0, Item::Empty)) && match e.1.checked_add(amount) {
                Some(a) => a <= self.item_limit,
                None => false,
            } {
                proof {
                    lemma_first_from_found(len as int, 0, pred, j as int);
                }
                return Some(j);
            }
            j += 1;
        }
        proof {
            lemma_first_from_none(len as int, 0, pred);
        }
        None
    }

    /// The first slot, preferred first, that can yield the removal.
    fn find_first_remove(
        &self,
        op_item: Option<Item>,
        op_amount: Option<Amount>,
        Ghost(pred): Ghost<spec_fn(int) -> bool>,
    ) -> (r: Option<usize>)
        requires
            self.wf(),
            pred == (|i: int| remove_pred(self.slots@, op_item, op_amount, i)),
        ensures
            r matches Some(i) ==> i < self.slots@.len() && Some(i as int) == first_preferred(
                self.slots@.len() as int,
                self.preferred as int,
                pred,
            ) && pred(i as int),
            r is None ==> first_preferred(self.slots@.len() as int, self.preferred as int, pred)
                is None,
    {
        let len = self.slots.len();
        let p = self.preferred as usize;
        if self.remove_matches(p, &op_item, &op_amount) {
            return Some(p);
        }
        let mut j: usize = 0;
        while j < len
            invariant
                self.wf(),
                len == self.slots@.len(),
                j <= len,
                pred == (|i: int| remove_pred(self.slots@, op_item, op_amount, i)),
                !pred(self.preferred as int),
                forall|q: int| 0 <= q < j ==> !(#[trigger] pred(q)),
            decreases len - j,
        {
            if self.remove_matches(j, &op_item, &op_amount) {
                proof {
                    lemma_first_from_found(len as int, 0, pred, j as int);
                }
                return Some(j);
            }
            j += 1;
        }
        proof {
            lemma_first_from_none(len as int, 0, pred);
        }
        None
    }

    /// Whether slot `i` satisfies the removal request.
    fn remove_matches(&self, i: usize, op_item: &Option<Item>, op_amount: &Option<Amount>) -> (r:
        bool)
        requires
            i < self.slots@.len(),
        ensures
            r == remove_pred(self.slots@, *op_item, *op_amount, i as int),
    {
        let e = self.slots[i];
        let item_ok = match op_item {
            Some(it) => e.0 == *it,
            None => !matches!(e.0, Item::Empty),
        };
        let amount_ok = match op_amount {
            Some(v) => e.1 >= *v,
            None => true,
        };
        item_ok && amount_ok
    }

    /// Commits a verified operation. The inventory must not have changed
    /// between verification and commit. Afterwards every present slot still
    /// holds a positive amount.
    pub fn modify(&mut self, operation: ModifyOperation)
        requires
            old(self).wf(),
            old(self).valid_modify(operation),
        ensures
            final(self).wf(),
            final(self).preferred == old(self).preferred,
            final(self).item_limit == old(self).item_limit,
            final(self).slots@ == Self::modify_spec(old(self).slots@, operation),
    {
        let n = self.slots.len();
        proof {
            assert(operation.slot < n);
        }
        let i = operation.slot as usize;
        if operation.amount < 1 {
            self.slots.set(i, (Item::Empty, 0));
        } else {
            self.slots.set(i, (operation.item, operation.amount));
        }
    }
}

/// An inventory of either shape, under the one transactional interface.
/// Entity buffers are [`SimpleInventory`]; the player's is a
/// [`PlayerInventory`].
#[verifier::ext_equal]
pub enum Inventory {
    Simple(SimpleInventory),
    Player(PlayerInventory),
}

impl Inventory {
    /// Structural invariant of the underlying inventory.
    pub open spec fn wf(self) -> bool {
        match self {
            Inventory::Simple(inv) => inv.wf(),
            Inventory::Player(inv) => inv.wf(),
        }
    }

    /// Total amount stored, over all slots.
    pub open spec fn total(self) -> int {
        match self {
            Inventory::Simple(inv) => inv.total(),
            Inventory::Player(inv) => inv.total(),
        }
    }

    /// What [`Self::verify`] returns.
    pub open spec fn verify_spec(self, operation: VerifyOperation) -> Option<
        (ModifyOperation, Amount, Amount),
    > {
        match self {
            Inventory::Simple(inv) => inv.verify_spec(operation),
            Inventory::Player(inv) => inv.verify_spec(operation),
        }
    }

    /// Whether `operation` may be committed against this inventory.
    pub open spec fn valid_modify(self, operation: ModifyOperation) -> bool {
        match self {
            Inventory::Simple(inv) => inv.valid_modify(operation),
            Inventory::Player(inv) => inv.valid_modify(operation),
        }
    }

    /// How committing `operation` relates the inventory before to the
    /// inventory after: the shape and its parameters are unchanged and the
    /// slots are rewritten as the shape's `modify_spec` says.
    pub open spec fn modify_rel(pre: Inventory, post: Inventory, operation: ModifyOperation) -> bool {
        match (pre, post) {
            (Inventory::Simple(p), Inventory::Simple(q)) => {
                &&& q.limit == p.limit
                &&& q.slots@ == SimpleInventory::modify_spec(p.slots@, operation)
            },
            (Inventory::Player(p), Inventory::Player(q)) => {
                &&& q.preferred == p.preferred
                &&& q.item_limit == p.item_limit
                &&& q.slots@ == PlayerInventory::modify_spec(p.slots@, operation)
            },
            _ => false,
        }
    }

    /// What a transfer does: verify the removal against `a`, then verify an
    /// addition of the amount actually removed against `b`; the two
    /// committable halves, or `None` when either verification fails.
    pub open spec fn swap_spec(a: Inventory, b: Inventory, operation: VerifyOperation) -> Option<
        (ModifyOperation, ModifyOperation),
    > {
        match a.verify_spec(operation) {
            Some((m1, before, after)) => match b.verify_spec(
                VerifyOperation::Add(m1.item, (before - after) as u64),
            ) {
                Some((m2, _, _)) => Some((m1, m2)),
                None => None,
            },
            None => None,
        }
    }

    /// The stored `(item, amount)` pairs, in slot order.
    pub fn slots(&self) -> (r: Vec<(Item, Amount)>)
        ensures
            r@ == match *self {
                Inventory::Simple(inv) => inv.slots@.map_values(|e: SimpleEntry| (e.1, e.2)),
                Inventory::Player(inv) => inv.slots@,
            },
    {
        match self {
            Inventory::Simple(inv) => inv.slots(),
            Inventory::Player(inv) => inv.slots(),
        }
    }

    /// Checks an operation against the current state without mutating it.
    pub fn verify(&self, operation: VerifyOperation) -> (r: Option<(ModifyOperation, Before, After)>)
        requires
            self.wf(),
        ensures
            (r is Some) == (self.verify_spec(operation) is Some),
            r matches Some((m, b, a)) ==> self.verify_spec(operation) == Some((m, b.0, a.0)),
    {
        match self {
            Inventory::Simple(inv) => inv.verify(operation),
            Inventory::Player(inv) => inv.verify(operation),
        }
    }

    /// Commits a verified operation. The inventory must not have changed
    /// between verification and commit. Afterwards every present slot still
    /// holds a positive amount.
    pub fn modify(&mut self, operation: ModifyOperation)
        requires
            old(self).wf(),
            old(self).valid_modify(operation),
        ensures
            final(self).wf(),
            Self::modify_rel(*old(self), *final(self), operation),
    {
        match self {
            Inventory::Simple(inv) => inv.modify(operation),
            Inventory::Player(inv) => inv.modify(operation),
        }
    }

    /// Transfers items from this inventory into `other`: verifies the
    /// removal here and an addition of the amount actually removed there,
    /// then commits both halves, or neither. The total amount across the
    /// two inventories is exactly conserved, and on failure neither
    /// inventory changes at all.
    pub fn swap(&mut self, other: &mut Inventory, operation: VerifyOperation) -> (r: Option<()>)
        requires
            old(self).wf(),
            old(other).wf(),
            operation is Remove,
        ensures
            final(self).wf(),
            final(other).wf(),
            (r is Some) == (Self::swap_spec(*old(self), *old(other), operation) is Some),
            r is None ==> *final(self) == *old(self) && *final(other) == *old(other),
            Self::swap_spec(*old(self), *old(other), operation) matches Some((m1, m2))
                ==> Self::modify_rel(*old(self), *final(self), m1) && Self::modify_rel(
                *old(other),
                *final(other),
                m2,
            ),
            r is Some ==> final(self).total() + final(other).total() == old(self).total() + old(
                other,
            ).total(),
    {
        let r1 = self.verify(operation);
        match r1 {
            None => None,
            Some((m1, before, after)) => {
                proof {
                    lemma_verify_shape(*self, operation);
                }
                let delta = before.0 - after.0;
                let r2 = other.verify(VerifyOperation::Add(m1.item, delta));
                match r2 {
                    None => None,
                    Some((m2, b2, a2)) => {
                        proof {
                            lemma_verify_shape(*self, operation);
                            lemma_verify_shape(*other, VerifyOperation::Add(m1.item, delta));
                        }
                        self.modify(m1);
                        other.modify(m2);
                        proof {
                            lemma_modify_total(
                                *old(self),
                                *self,
                                operation,
                                m1,
                                before.0,
                                after.0,
                            );
                            lemma_modify_total(
                                *old(other),
                                *other,
                                VerifyOperation::Add(m1.item, delta),
                                m2,
                                b2.0,
                                a2.0,
                            );
                        }
                        Some(())
                    },
                }
            },
        }
    }
}

/// Whether the inventory stores at least one unit of `item` in some slot.
pub open spec fn inv_contains_item(inv: Inventory, item: Item) -> bool {
    match inv {
        Inventory::Simple(p) => exists|i: int|
            0 <= i < p.slots@.len() && (#[trigger] p.slots@[i]).1 == item,
        Inventory::Player(p) => exists|i: int|
            0 <= i < p.slots@.len() && (#[trigger] p.slots@[i]).0 == item,
    }
}

/// A verified removal removes an item kind the inventory already stores.
pub proof fn lemma_remove_gives_stored(inv: Inventory, operation: VerifyOperation)
    requires
        inv.wf(),
        operation is Remove,
        inv.verify_spec(operation) is Some,
    ensures
        inv.verify_spec(operation) matches Some((m, b, a)) ==> inv_contains_item(inv, m.item),
{
    match inv {
        Inventory::Simple(p) => {
            let s = p.slots@;
            match operation {
                VerifyOperation::Remove(op_item, op_amount) => {
                    match op_item {
                        Some(it) => {
                            let k = hash_spec(it);
                            if has_key(s, k) {
                                let i = key_index(s, k);
                                assert(0 <= i < s.len() && s[i].0 == k);
                            }
                        },
                        None => {
                            assert(s.len() > 0);
                        },
                    }
                },
                _ => {},
            }
        },
        Inventory::Player(p) => {
            let s = p.slots@;
            match operation {
                VerifyOperation::Remove(op_item, op_amount) => {
                    if op_item != Some(Item::Empty) {
                        lemma_first_preferred_pred(
                            s.len() as int,
                            p.preferred as int,
                            |i: int| remove_pred(s, op_item, op_amount, i),
                        );
                    }
                },
                _ => {},
            }
        },
    }
}

/// Committing an operation introduces no item kind beyond what was already
/// stored, the committed item, and the empty marker.
pub proof fn lemma_modify_items(pre: Inventory, post: Inventory, m: ModifyOperation)
    requires
        pre.valid_modify(m),
        Inventory::modify_rel(pre, post, m),
    ensures
        forall|it: Item|
            inv_contains_item(post, it) ==> inv_contains_item(pre, it) || it == m.item || it
                == Item::Empty,
{
    match (pre, post) {
        (Inventory::Simple(p), Inventory::Simple(q)) => {
            let s = p.slots@;
            assert forall|it: Item|
                inv_contains_item(post, it) implies inv_contains_item(pre, it) || it == m.item
                || it == Item::Empty by {
                let j = choose|j: int| 0 <= j < q.slots@.len() && q.slots@[j].1 == it;
                if m.amount == 0 {
                    if has_key(s, m.slot) {
                        let i = key_index(s, m.slot);
                        let j0 = if j < i {
                            j
                        } else {
                            j + 1
                        };
                        assert(q.slots@[j] == s[j0]);
                    }
                } else if has_key(s, m.slot) {
                    let i = key_index(s, m.slot);
                    if j == i {
                        assert(q.slots@[j].1 == s[i].1);
                    }
                } else {
                    if j < s.len() {
                        assert(q.slots@[j] == s[j]);
                    } else {
                        assert(q.slots@[j].1 == m.item);
                    }
                }
            }
        },
        (Inventory::Player(p), Inventory::Player(q)) => {
            let s = p.slots@;
            assert forall|it: Item|
                inv_contains_item(post, it) implies inv_contains_item(pre, it) || it == m.item
                || it == Item::Empty by {
                let j = choose|j: int| 0 <= j < q.slots@.len() && q.slots@[j].0 == it;
                assert(m.slot < s.len());
                if j != m.slot as int {
                    assert(q.slots@[j] == s[j]);
                }
            }
        },
        _ => {},
    }
}

/// A found scan result satisfies its predicate and is in range.
pub proof fn lemma_first_from_pred(len: int, j: int, pred: spec_fn(int) -> bool)
    requires
        0 <= j,
        first_from(len, j, pred) is Some,
    ensures
        first_from(len, j, pred) matches Some(i) ==> j <= i < len && pred(i),
    decreases len - j,
{
    if j >= len {
    } else if pred(j) {
    } else {
        lemma_first_from_pred(len, j + 1, pred);
    }
}

/// A found preferred-first scan result satisfies its predicate and is in
/// range.
proof fn lemma_first_preferred_pred(len: int, pref: int, pred: spec_fn(int) -> bool)
    requires
        0 <= pref < len,
        first_preferred(len, pref, pred) is Some,
    ensures
        first_preferred(len, pref, pred) matches Some(i) ==> 0 <= i < len && pred(i),
{
    if !pred(pref) {
        lemma_first_from_pred(len, 0, pred);
    }
}

/// A successfully verified operation is committable, a removal never leaves
/// the slot with more than it had, and an addition never with less.
pub proof fn lemma_verify_shape(inv: Inventory, operation: VerifyOperation)
    requires
        inv.wf(),
        inv.verify_spec(operation) is Some,
    ensures
        inv.verify_spec(operation) matches Some((m, b, a)) ==> {
            &&& inv.valid_modify(m)
            &&& (operation is Remove ==> a <= b)
            &&& (operation matches VerifyOperation::Add(_, amount) ==> a == b + amount)
        },
{
    match inv {
        Inventory::Simple(p) => {
            let s = p.slots@;
            match operation {
                VerifyOperation::Add(item, amount) => {
                    let k = hash_spec(item);
                    if has_key(s, k) {
                        let i = key_index(s, k);
                        assert(0 <= i < s.len() && s[i].0 == k);
                    }
                },
                VerifyOperation::Remove(op_item, op_amount) => {
                    match op_item {
                        Some(it) => {
                            let k = hash_spec(it);
                            let i = key_index(s, k);
                            assert(0 <= i < s.len() && s[i].0 == k);
                        },
                        None => {
                            assert(s.len() > 0);
                            assert(has_key(s, s[0].0));
                        },
                    }
                },
            }
        },
        Inventory::Player(p) => {
            let s = p.slots@;
            match operation {
                VerifyOperation::Add(item, amount) => {
                    if item != Item::Empty {
                        lemma_first_preferred_pred(
                            s.len() as int,
                            p.preferred as int,
                            |i: int| add_pred(s, p.item_limit, item, amount, i),
                        );
                    }
                },
                VerifyOperation::Remove(op_item, op_amount) => {
                    if op_item != Some(Item::Empty) {
                        lemma_first_preferred_pred(
                            s.len() as int,
                            p.preferred as int,
                            |i: int| remove_pred(s, op_item, op_amount, i),
                        );
                    }
                },
            }
        },
    }
}

/// Committing what a verification returned changes the inventory's total by
/// exactly the verified after-minus-before delta.
pub proof fn lemma_modify_total(
    pre: Inventory,
    post: Inventory,
    operation: VerifyOperation,
    m: ModifyOperation,
    b: Amount,
    a: Amount,
)
    requires
        pre.wf(),
        pre.verify_spec(operation) == Some((m, b, a)),
        Inventory::modify_rel(pre, post, m),
    ensures
        post.total() == pre.total() + a - b,
{
    match (pre, post) {
        (Inventory::Simple(p), Inventory::Simple(q)) => {
            lemma_simple_modify_total(p, q, operation, m, b, a);
        },
        (Inventory::Player(p), Inventory::Player(q)) => {
            lemma_player_modify_total(p, q, operation, m, b, a);
        },
        _ => {},
    }
}

proof fn lemma_simple_modify_total(
    p: SimpleInventory,
    q: SimpleInventory,
    operation: VerifyOperation,
    m: ModifyOperation,
    b: Amount,
    a: Amount,
)
    requires
        p.wf(),
        p.verify_spec(operation) == Some((m, b, a)),
        q.slots@ == SimpleInventory::modify_spec(p.slots@, m),
    ensures
        q.total() == p.total() + a - b,
{
    let s = p.slots@;
    let f = |e: SimpleEntry| e.2;
    if has_key(s, m.slot) {
        let i = key_index(s, m.slot);
        assert(0 <= i < s.len() && s[i].0 == m.slot);
        assert(s[i].2 == b);
        if m.amount == 0 {
            assert(q.slots@ =~= s.remove(i));
            assert(q.slots@.map_values(f) =~= s.map_values(f).remove(i));
            lemma_sum_remove(s.map_values(f), i);
        } else {
            assert(q.slots@ =~= s.update(i, (s[i].0, s[i].1, m.amount)));
            assert(q.slots@.map_values(f) =~= s.map_values(f).update(i, m.amount));
            lemma_sum_update(s.map_values(f), i, m.amount);
        }
    } else {
        if m.amount == 0 {
            assert(q.slots@ =~= s);
            assert(q.total() == p.total());
        } else {
            assert(q.slots@ =~= s.push((m.slot, m.item, m.amount)));
            assert(q.slots@.map_values(f) =~= s.map_values(f).push(m.amount));
            lemma_sum_push(s.map_values(f), m.amount);
        }
    }
}

proof fn lemma_player_modify_total(
    p: PlayerInventory,
    q: PlayerInventory,
    operation: VerifyOperation,
    m: ModifyOperation,
    b: Amount,
    a: Amount,
)
    requires
        p.wf(),
        p.verify_spec(operation) == Some((m, b, a)),
        q.slots@ == PlayerInventory::modify_spec(p.slots@, m),
    ensures
        q.total() == p.total() + a - b,
{
    let s = p.slots@;
    let f = |e: PlayerEntry| e.1;
    let i = m.slot as int;
    match operation {
        VerifyOperation::Add(item, amount) => {
            let pred = |j: int| add_pred(s, p.item_limit, item, amount, j);
            lemma_first_preferred_pred(s.len() as int, p.preferred as int, pred);
            match first_preferred(s.len() as int, p.preferred as int, pred) {
                Some(iw) => {
                    assert(m.slot == iw as Slot);
                    assert(i == iw);
                },
                None => {},
            }
        },
        VerifyOperation::Remove(op_item, op_amount) => {
            let pred = |j: int| remove_pred(s, op_item, op_amount, j);
            lemma_first_preferred_pred(s.len() as int, p.preferred as int, pred);
            match first_preferred(s.len() as int, p.preferred as int, pred) {
                Some(iw) => {
                    assert(m.slot == iw as Slot);
                    assert(i == iw);
                },
                None => {},
            }
        },
    }
    assert(0 <= i < s.len());
    assert(s[i].1 == b);
    if m.amount == 0 {
        assert(q.slots@ =~= s.update(i, (Item::Empty, 0 as Amount)));
        assert(q.slots@.map_values(f) =~= s.map_values(f).update(i, 0 as Amount));
        lemma_sum_update(s.map_values(f), i, 0);
    } else {
        assert(q.slots@ =~= s.update(i, (m.item, m.amount)));
        assert(q.slots@.map_values(f) =~= s.map_values(f).update(i, m.amount));
        lemma_sum_update(s.map_values(f), i, m.amount);
    }
}

/// If `pred` fails everywhere below `w` and holds at `w`, the scan from `j`
/// finds `w`.
pub proof fn lemma_first_from_found(len: int, j: int, pred: spec_fn(int) -> bool, w: int)
    requires
        0 <= j <= w < len,
        pred(w),
        forall|q: int| j <= q < w ==> !(#[trigger] pred(q)),
    ensures
        first_from(len, j, pred) == Some(w),
    decreases w - j,
{
    if j < w {
        lemma_first_from_found(len, j + 1, pred, w);
    }
}

/// If `pred` fails everywhere from `j` on, the scan finds nothing.
pub proof fn lemma_first_from_none(len: int, j: int, pred: spec_fn(int) -> bool)
    requires
        0 <= j,
        forall|q: int| j <= q < len ==> !(#[trigger] pred(q)),
    ensures
        first_from(len, j, pred) is None,
    decreases len - j,
{
    if j < len {
        lemma_first_from_none(len, j + 1, pred);
    }
}

/// Removing an entry keeps keys distinct, amounts positive, and items keyed
/// by their hash.
proof fn lemma_modify_wf_remove(s: Seq<SimpleEntry>, i: int)
    requires
        0 <= i < s.len(),
        forall|p: int, q: int| 0 <= p < q < s.len() ==> s[p].0 != s[q].0,
        forall|p: int| 0 <= p < s.len() ==> (#[trigger] s[p]).2 >= 1,
        forall|p: int| 0 <= p < s.len() ==> (#[trigger] s[p]).0 == hash_spec(s[p].1),
    ensures
        forall|p: int, q: int| 0 <= p < q < s.remove(i).len() ==> s.remove(i)[p].0 != s.remove(i)[q].0,
        forall|p: int| 0 <= p < s.remove(i).len() ==> (#[trigger] s.remove(i)[p]).2 >= 1,
        forall|p: int| 0 <= p < s.remove(i).len() ==> (#[trigger] s.remove(i)[p]).0 == hash_spec(
            s.remove(i)[p].1,
        ),
{
    assert forall|p: int, q: int|
        0 <= p < q < s.remove(i).len() implies s.remove(i)[p].0 != s.remove(i)[q].0 by {
        let p0 = if p < i {
            p
        } else {
            p + 1
        };
        let q0 = if q < i {
            q
        } else {
            q + 1
        };
        assert(s.remove(i)[p] == s[p0]);
        assert(s.remove(i)[q] == s[q0]);
    }
    assert forall|p: int| 0 <= p < s.remove(i).len() implies (#[trigger] s.remove(i)[p]).2 >= 1 by {
        let p0 = if p < i {
            p
        } else {
            p + 1
        };
        assert(s.remove(i)[p] == s[p0]);
    }
    assert forall|p: int|
        0 <= p < s.remove(i).len() implies (#[trigger] s.remove(i)[p]).0 == hash_spec(
        s.remove(i)[p].1,
    ) by {
        let p0 = if p < i {
            p
        } else {
            p + 1
        };
        assert(s.remove(i)[p] == s[p0]);
    }
}

} // verus!
