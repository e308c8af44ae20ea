use cog::hash;
use cog::Inventory;
use cog::Item;
use cog::ModifyOperation;
use cog::PlayerInventory;
use cog::SimpleInventory;
use cog::VerifyOperation;

static ITEM: Item = Item::RawSilver;

#[test]
fn simple_test_limit() {
    // test add past limit
    assert!(
        SimpleInventory::new(0)
            .verify(VerifyOperation::Add(Item::RawSilver, 1))
            .is_none(),
        "add operation should not prepare with slot limit exceeded"
    );
}

#[test]
fn simple_test_add() {
    // test add
    assert!(
        SimpleInventory::new(1)
            .verify(VerifyOperation::Add(Item::RawSilver, 1))
            .is_some(),
        "add operation should prepare"
    );
}

#[test]
fn simple_test_remove() {
    // test remove with none
    assert!(
        SimpleInventory::new(1)
            .verify(VerifyOperation::Remove(Some(ITEM), Some(1)))
            .is_none(),
        "remove operation should not prepare with no items"
    );

    // test remove max
    let mut inventory = SimpleInventory::new(1);
    inventory.modify(ModifyOperation {
        item: ITEM,
        slot: hash(&ITEM),
        amount: 5,
    });

    let (ModifyOperation { amount, .. }, _, _) = inventory
        .verify(VerifyOperation::Remove(Some(ITEM), None))
        .expect("remove operation should prepare");
    assert_eq!(amount, 0, "removed amount was not max amount");

    // test slot cleanup
    let mut inventory = SimpleInventory::new(1);
    inventory.modify(ModifyOperation {
        item: ITEM,
        slot: hash(&ITEM),
        amount: 0,
    });

    assert!(
        inventory.slots.iter().all(|e| e.0 != hash(&ITEM)),
        "inventory should not contain item after none left",
    );
}

#[test]
fn player_test_limit() {
    // test add past item limit
    assert!(
        PlayerInventory::new(1, 1)
            .verify(VerifyOperation::Add(ITEM, 2))
            .is_none(),
        "add operation should not prepare with item limit exceeded"
    );

    // test add past slot limit
    let mut inventory = PlayerInventory::new(1, 1);
    inventory.modify(ModifyOperation {
        slot: 0,
        item: ITEM,
        amount: 1,
    });
    assert!(
        inventory
            .verify(VerifyOperation::Add(ITEM, 1))
            .is_none(),
        "add operation should not prepare with no slots available"
    );
}

#[test]
fn player_test_add() {
    // test add
    assert!(
        PlayerInventory::new(1, 1)
            .verify(VerifyOperation::Add(ITEM, 1))
            .is_some(),
        "add operation should prepare"
    );
}

#[test]
fn player_test_remove() {
    // test remove with none
    assert!(
        PlayerInventory::new(1, 1)
            .verify(VerifyOperation::Remove(Some(ITEM), Some(1)))
            .is_none(),
        "remove operation should not prepare with no items"
    );

    // test remove max
    let mut inventory = PlayerInventory::new(1, 5);
    inventory.modify(ModifyOperation {
        item: ITEM,
        slot: 0,
        amount: 5,
    });
    let (ModifyOperation { amount, .. }, _, _) = inventory
        .verify(VerifyOperation::Remove(Some(ITEM), None))
        .expect("reomve operation should prepare");
    assert_eq!(amount, 0, "removed amount was not max amount");

    // test slot cleanup
    let mut inventory = PlayerInventory::new(1, 1);
    inventory.modify(ModifyOperation {
        item: ITEM,
        slot: 0,
        amount: 0,
    });

    assert_eq!(
        inventory.slots[0].0,
        Item::Empty,
        "inventory should not contain item after none left",
    );
}

/// Adding to an occupied slot stacks the amounts exactly.
#[test]
fn simple_add_stacks() {
    let mut inventory = SimpleInventory::new(2);
    let (op, before, after) = inventory
        .verify(VerifyOperation::Add(Item::RawIron, 3))
        .expect("first add should verify");
    assert_eq!((before.0, after.0), (0, 3));
    inventory.modify(op);
    let (op, before, after) = inventory
        .verify(VerifyOperation::Add(Item::RawIron, 4))
        .expect("second add should verify");
    assert_eq!((before.0, after.0), (3, 7));
    assert_eq!(op.amount, 7);
    inventory.modify(op);
    assert_eq!(inventory.slots(), vec![(Item::RawIron, 7)]);
}

/// Adding an amount that would overflow the counter is rejected.
#[test]
fn simple_add_overflow() {
    let mut inventory = SimpleInventory::new(1);
    inventory.modify(ModifyOperation {
        slot: hash(&Item::RawTin),
        item: Item::RawTin,
        amount: u64::MAX,
    });
    assert!(inventory
        .verify(VerifyOperation::Add(Item::RawTin, 1))
        .is_none());
    assert!(inventory
        .verify(VerifyOperation::Add(Item::RawTin, 0))
        .is_some());
}

/// An unnamed removal takes from the oldest occupied slot.
#[test]
fn simple_remove_unnamed_takes_oldest() {
    let mut inventory = SimpleInventory::new(3);
    for (item, amount) in [(Item::RawGold, 2), (Item::RawCopper, 5)] {
        let (op, _, _) = inventory
            .verify(VerifyOperation::Add(item, amount))
            .expect("add should verify");
        inventory.modify(op);
    }
    let (op, before, after) = inventory
        .verify(VerifyOperation::Remove(None, None))
        .expect("unnamed remove should verify");
    assert_eq!(op.item, Item::RawGold);
    assert_eq!((before.0, after.0), (2, 0));
    inventory.modify(op);
    assert_eq!(inventory.slots(), vec![(Item::RawCopper, 5)]);
}

/// A removal larger than what is present is rejected without change.
#[test]
fn simple_remove_too_much() {
    let mut inventory = SimpleInventory::new(1);
    let (op, _, _) = inventory
        .verify(VerifyOperation::Add(Item::RawIron, 2))
        .expect("add should verify");
    inventory.modify(op);
    assert!(inventory
        .verify(VerifyOperation::Remove(Some(Item::RawIron), Some(3)))
        .is_none());
    assert!(inventory
        .verify(VerifyOperation::Remove(Some(Item::RawGold), Some(1)))
        .is_none());
    assert_eq!(inventory.slots(), vec![(Item::RawIron, 2)]);
}

/// The player's preferred slot is tried first for unnamed removals.
#[test]
fn player_preferred_slot() {
    let mut inventory = PlayerInventory::new(3, 10);
    inventory.modify(ModifyOperation {
        slot: 0,
        item: Item::RawIron,
        amount: 2,
    });
    inventory.modify(ModifyOperation {
        slot: 2,
        item: Item::RawGold,
        amount: 4,
    });
    inventory.preferred = 2;
    let (op, before, _) = inventory
        .verify(VerifyOperation::Remove(None, None))
        .expect("unnamed remove should verify");
    assert_eq!(op.slot, 2);
    assert_eq!(op.item, Item::RawGold);
    assert_eq!(before.0, 4);
}

/// Conservation: a successful swap moves amounts without creating or
/// destroying any.
#[test]
fn swap_conserves_total() {
    let mut a = Inventory::Simple(SimpleInventory::new(1));
    let mut b = Inventory::Simple(SimpleInventory::new(2));
    match &mut a {
        Inventory::Simple(inv) => inv.modify(ModifyOperation {
            slot: hash(&Item::RawIron),
            item: Item::RawIron,
            amount: 6,
        }),
        _ => unreachable!(),
    }
    let total_before: u64 = a.slots().iter().map(|e| e.1).sum::<u64>()
        + b.slots().iter().map(|e| e.1).sum::<u64>();
    let r = a.swap(&mut b, VerifyOperation::Remove(None, Some(4)));
    assert!(r.is_some());
    let total_after: u64 = a.slots().iter().map(|e| e.1).sum::<u64>()
        + b.slots().iter().map(|e| e.1).sum::<u64>();
    assert_eq!(total_before, total_after);
    assert_eq!(a.slots(), vec![(Item::RawIron, 2)]);
    assert_eq!(b.slots(), vec![(Item::RawIron, 4)]);
}

/// Atomicity: when the receiving side cannot take the items, neither
/// inventory changes.
#[test]
fn swap_failure_changes_nothing() {
    let mut a = Inventory::Simple(SimpleInventory::new(1));
    let mut b = Inventory::Simple(SimpleInventory::new(0));
    match &mut a {
        Inventory::Simple(inv) => inv.modify(ModifyOperation {
            slot: hash(&Item::RawIron),
            item: Item::RawIron,
            amount: 6,
        }),
        _ => unreachable!(),
    }
    let r = a.swap(&mut b, VerifyOperation::Remove(None, None));
    assert!(r.is_none());
    assert_eq!(a.slots(), vec![(Item::RawIron, 6)]);
    assert_eq!(b.slots(), vec![]);

    // and when the removing side has nothing, the same holds
    let mut c = Inventory::Simple(SimpleInventory::new(1));
    let r = c.swap(&mut a, VerifyOperation::Remove(None, None));
    assert!(r.is_none());
    assert_eq!(a.slots(), vec![(Item::RawIron, 6)]);
    assert_eq!(c.slots(), vec![]);
}

/// Capacity: under any sequence of verified adds the slot count never
/// passes the limit.
#[test]
fn simple_add_sequence_respects_limit() {
    let kinds = [
        Item::RawIron,
        Item::RawCopper,
        Item::RawGold,
        Item::RawSilver,
        Item::RawTin,
    ];
    let mut inventory = SimpleInventory::new(3);
    let mut state: u64 = 0x2545_f491_4f6c_dd1d;
    for _ in 0..200 {
        // a small linear congruential step drives the operation mix
        state = state.wrapping_mul(6364136223846793005).wrapping_add(1442695040888963407);
        let item = kinds[(state >> 32) as usize % kinds.len()];
        let amount = (state >> 48) % 7;
        if let Some((op, _, _)) = inventory.verify(VerifyOperation::Add(item, amount)) {
            inventory.modify(op);
        }
        assert!(inventory.slots.len() <= inventory.limit);
        assert!(inventory.slots.iter().all(|e| e.2 >= 1));
    }
}

/// Distinct item kinds get distinct slot keys.
#[test]
fn hash_separates_kinds() {
    let items = [
        Item::Empty,
        Item::RawIron,
        Item::RawCopper,
        Item::RawGold,
        Item::RawSilver,
        Item::RawTin,
    ];
    for (i, a) in items.iter().enumerate() {
        for (j, b) in items.iter().enumerate() {
            assert_eq!(hash(a) == hash(b), i == j);
        }
    }
    let pod = Item::Pod(cog::EntityId {
        index: 7,
        kind: cog::EntityKind::Pod,
    });
    let tunnel = Item::Tunnel(cog::EntityId {
        index: 7,
        kind: cog::EntityKind::Tunnel,
    });
    assert_ne!(hash(&pod), hash(&tunnel));
}
