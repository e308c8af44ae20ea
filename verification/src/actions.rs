//! Player actions: moving the cursor and exchanging items between the
//! player's inventory and the world cell under the cursor. The interface
//! layer translates key events into [`BasicCluster`] actions and hands them
//! to [`handle_basic`].

use vstd::prelude::*;

use crate::controls::BasicCluster;
use crate::inventory::lemma_remove_gives_stored;
use crate::inventory::lemma_verify_shape;
use crate::inventory::inv_contains_item;
use crate::inventory::Inventory;
use crate::inventory::ModifyOperation;
use crate::inventory::VerifyOperation;
use crate::items::Item;
use crate::store::entry_modified;
use crate::store::item_ok;
use crate::store::lemma_store_inv_wf;
use crate::store::Entry;
use crate::store::Store;
use crate::world::Direction;
use crate::world::Position;

verus! {

/// How a cursor move in `direction` relates the store before to the store
/// after: when the destination is on the grid, the cursor and the player
/// entity move there; otherwise nothing changes. The grid itself is never
/// touched.
pub open spec fn moved_rel(pre: Store, post: Store, direction: Direction) -> bool {
    match pre.world.cursor.move_by_spec(direction, 1) {
        Some(np) => {
            &&& post.world.cursor == np
            &&& post.world.grid == pre.world.grid
            &&& post.entities@.len() == pre.entities@.len()
            &&& match pre.player_of() {
                Some(pi) => {
                    &&& forall|i: int|
                        0 <= i < pre.entities@.len() && i != pi ==> post.entities@[i]
                            == pre.entities@[i]
                    &&& post.entities@[pi] == (Entry {
                        data: pre.entities@[pi].data,
                        position: Some(np),
                        ticking: pre.entities@[pi].ticking,
                    })
                },
                None => post.entities@ == pre.entities@,
            }
        },
        None => post == pre,
    }
}

/// What happens to the entry of the entity referenced by a moved item:
/// its position becomes `position`, everything else stays.
pub open spec fn entry_repositioned(pre: Entry, post: Entry, position: Option<Position>) -> bool {
    post == (Entry { data: pre.data, position, ticking: pre.ticking })
}

/// How a selection relates the store before to the store after. With the
/// cursor on an empty cell, the player places one item: a removal of one
/// item is verified against the player's inventory and committed, the item
/// goes into the cell, and a placed entity takes the cursor as its
/// position. With the cursor on an occupied cell, the player picks the item
/// up: an addition of one item is verified and committed, the cell is
/// cleared, and a picked-up entity leaves the grid. When there is no player
/// or verification fails, nothing changes.
pub open spec fn select_rel(pre: Store, post: Store) -> bool {
    let cur = pre.world.cursor;
    let item = pre.world.cell(cur);
    match pre.player_of() {
        None => post == pre,
        Some(pi) => {
            let inv = pre.entities@[pi].data.inventory_spec();
            match inv {
                None => post == pre,
                Some(inv) => {
                    if item == Item::Empty {
                        match inv.verify_spec(
                            VerifyOperation::Remove(None, Some(1)),
                        ) {
                            Some((m, b, a)) => select_place_rel(pre, post, pi, m),
                            None => post == pre,
                        }
                    } else {
                        match inv.verify_spec(VerifyOperation::Add(item, 1)) {
                            Some((m, b, a)) => select_pickup_rel(pre, post, pi, m, item),
                            None => post == pre,
                        }
                    }
                },
            }
        },
    }
}

/// The effect of placing the removed item at the cursor: the player's
/// inventory commits the removal, the cursor cell receives the item, and a
/// placed entity is positioned at the cursor.
pub open spec fn select_place_rel(pre: Store, post: Store, pi: int, m: ModifyOperation) -> bool {
    let cur = pre.world.cursor;
    &&& post.world.cursor == cur
    &&& post.world.grid@.len() == pre.world.grid@.len()
    &&& post.world.cell(cur) == m.item
    &&& forall|p: Position| p.on_grid() && p != cur ==> post.world.cell(p) == pre.world.cell(p)
    &&& post.entities@.len() == pre.entities@.len()
    &&& match m.item.entity_spec() {
        None => {
            &&& entry_modified(pre.entities@[pi], post.entities@[pi], m)
            &&& forall|i: int|
                0 <= i < pre.entities@.len() && i != pi ==> post.entities@[i] == pre.entities@[i]
        },
        Some(e) => {
            if e.index == pi {
                &&& exists|em: Entry|
                    entry_modified(pre.entities@[pi], em, m) && entry_repositioned(
                        em,
                        #[trigger] post.entities@[pi],
                        Some(cur),
                    )
                &&& forall|i: int|
                    0 <= i < pre.entities@.len() && i != pi ==> post.entities@[i]
                        == pre.entities@[i]
            } else {
                &&& entry_modified(pre.entities@[pi], post.entities@[pi], m)
                &&& entry_repositioned(
                    pre.entities@[e.index as int],
                    post.entities@[e.index as int],
                    Some(cur),
                )
                &&& forall|i: int|
                    0 <= i < pre.entities@.len() && i != pi && i != e.index ==> post.entities@[i]
                        == pre.entities@[i]
            }
        },
    }
}

/// The effect of picking the cursor item up: the player's inventory commits
/// the addition, the cursor cell is cleared, and a picked-up entity leaves
/// the grid.
pub open spec fn select_pickup_rel(
    pre: Store,
    post: Store,
    pi: int,
    m: ModifyOperation,
    item: Item,
) -> bool {
    let cur = pre.world.cursor;
    &&& post.world.cursor == cur
    &&& post.world.grid@.len() == pre.world.grid@.len()
    &&& post.world.cell(cur) == Item::Empty
    &&& forall|p: Position| p.on_grid() && p != cur ==> post.world.cell(p) == pre.world.cell(p)
    &&& post.entities@.len() == pre.entities@.len()
    &&& match item.entity_spec() {
        None => {
            &&& entry_modified(pre.entities@[pi], post.entities@[pi], m)
            &&& forall|i: int|
                0 <= i < pre.entities@.len() && i != pi ==> post.entities@[i] == pre.entities@[i]
        },
        Some(e) => {
            if e.index == pi {
                &&& exists|em: Entry|
                    entry_modified(pre.entities@[pi], em, m) && entry_repositioned(
                        em,
                        #[trigger] post.entities@[pi],
                        None,
                    )
                &&& forall|i: int|
                    0 <= i < pre.entities@.len() && i != pi ==> post.entities@[i]
                        == pre.entities@[i]
            } else {
                &&& entry_modified(pre.entities@[pi], post.entities@[pi], m)
                &&& entry_repositioned(
                    pre.entities@[e.index as int],
                    post.entities@[e.index as int],
                    None,
                )
                &&& forall|i: int|
                    0 <= i < pre.entities@.len() && i != pi && i != e.index ==> post.entities@[i]
                        == pre.entities@[i]
            }
        },
    }
}

/// Moves the cursor one cell in `direction`, carrying the player entity
/// along; at the edge of the grid nothing happens.
pub fn move_cursor(store: &mut Store, direction: Direction)
    requires
        old(store).wf(),
    ensures
        final(store).wf(),
        moved_rel(*old(store), *final(store), direction),
{
    let player = store.get_player();
    let np = match store.world.cursor.move_by(direction, 1) {
        Some(np) => np,
        None => {
            return ;
        },
    };
    store.world.cursor = np;
    proof {
        assert forall|p: Position| p.on_grid() implies item_ok(
            store.entities@.len() as int,
            #[trigger] store.world.cell(p),
        ) by {
            assert(store.world.cell(p) == old(store).world.cell(p));
        }
        assert(store.wf());
    }
    match player {
        Some(p) => {
            store.set_position(p.index, Some(np));
        },
        None => {},
    }
}

/// Exchanges one item between the player's inventory and the cell under
/// the cursor: placing onto an empty cell, picking up from an occupied
/// one. A failed verification leaves everything unchanged.
pub fn handle_select(store: &mut Store)
    requires
        old(store).wf(),
    ensures
        final(store).wf(),
        select_rel(*old(store), *final(store)),
{
    let pid = match store.get_player() {
        Some(p) => p,
        None => {
            return ;
        },
    };
    let cursor = store.world.cursor;
    let cursor_item = store.world.get(cursor);
    let operation = if matches!(cursor_item, Item::Empty) {
        VerifyOperation::Remove(None, Some(1))
    } else {
        VerifyOperation::Add(cursor_item, 1)
    };
    let verified = match store.inventory(pid) {
        Some(inv) => inv.verify(operation),
        None => None,
    };
    let ghost inv0 = store.inventory_spec(pid)->Some_0;
    let (m, _, _) = match verified {
        Some(t) => t,
        None => {
            return ;
        },
    };
    proof {
        lemma_store_inv_wf(*store, pid);
        lemma_verify_shape(inv0, operation);
        if operation is Remove {
            lemma_remove_gives_stored(inv0, operation);
            assert(item_ok(store.entities@.len() as int, m.item)) by {
                match inv0 {
                    Inventory::Simple(p) => {
                        let w = choose|w: int|
                            0 <= w < p.slots@.len() && (#[trigger] p.slots@[w]).1 == m.item;
                        assert(item_ok(store.entities@.len() as int, p.slots@[w].1));
                    },
                    Inventory::Player(p) => {
                        let w = choose|w: int|
                            0 <= w < p.slots@.len() && (#[trigger] p.slots@[w]).0 == m.item;
                        assert(item_ok(store.entities@.len() as int, p.slots@[w].0));
                    },
                }
            }
        } else {
            assert(m.item == cursor_item);
            assert(item_ok(store.entities@.len() as int, cursor_item));
        }
    }
    store.commit_inventory(pid, m);
    if matches!(cursor_item, Item::Empty) {
        // place: the removed item enters the world at the cursor
        match m.item.entity() {
            Some(e) => {
                store.set_position(e.index, Some(cursor));
            },
            None => {},
        }
        store.world.place(m.item, cursor);
    } else {
        // pick up: the cell is cleared and a carried entity leaves the grid
        match cursor_item.entity() {
            Some(e) => {
                store.set_position(e.index, None);
            },
            None => {},
        }
        store.world.destroy(cursor);
    }
    proof {
        let n = store.entities@.len() as int;
        assert forall|p: Position| p.on_grid() implies item_ok(
            n,
            #[trigger] store.world.cell(p),
        ) by {
            if p != cursor {
                assert(store.world.cell(p) == old(store).world.cell(p));
            }
        }
    }
}

/// Performs one basic player action: a cursor move in the matching
/// direction, or a selection.
pub fn handle_basic(store: &mut Store, action: BasicCluster)
    requires
        old(store).wf(),
    ensures
        final(store).wf(),
        match action {
            BasicCluster::Left => moved_rel(*old(store), *final(store), Direction::West),
            BasicCluster::Right => moved_rel(*old(store), *final(store), Direction::East),
            BasicCluster::Up => moved_rel(*old(store), *final(store), Direction::North),
            BasicCluster::Down => moved_rel(*old(store), *final(store), Direction::South),
            BasicCluster::Select => select_rel(*old(store), *final(store)),
        },
{
    match action {
        BasicCluster::Left => move_cursor(store, Direction::West),
        BasicCluster::Right => move_cursor(store, Direction::East),
        BasicCluster::Up => move_cursor(store, Direction::North),
        BasicCluster::Down => move_cursor(store, Direction::South),
        BasicCluster::Select => handle_select(store),
    }
}

} // verus!
