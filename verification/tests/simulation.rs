use cog::belt_builder;
use cog::belt_tick;
use cog::pod_builder;
use cog::pod_tick;
use cog::pusher_builder;
use cog::pusher_tick;
use cog::sorted_tunnels;
use cog::tick;
use cog::tunnel_builder;
use cog::tunnel_tick;
use cog::Direction;
use cog::EntityId;
use cog::Item;
use cog::Position;
use cog::Store;

fn slots_of(store: &Store, id: EntityId) -> Vec<(Item, u64)> {
    match store.inventory(id) {
        Some(inv) => inv.slots(),
        None => Vec::new(),
    }
}

fn occupied(store: &Store, id: EntityId) -> Vec<(Item, u64)> {
    slots_of(store, id)
        .into_iter()
        .filter(|e| e.1 > 0)
        .collect()
}

/// Spawns a tunnel and records it on the grid, like world generation does.
fn place_tunnel(store: &mut Store, direction: Direction, position: Position) -> EntityId {
    let id = store.spawn(tunnel_builder(direction, position));
    store.world.place(Item::Tunnel(id), position);
    id
}

fn place_pod(store: &mut Store, resource: Item, position: Position) -> EntityId {
    let id = store.spawn(pod_builder(resource, position));
    store.world.place(Item::Pod(id), position);
    id
}

/// A pod fills its one-item buffer on the first tick and stalls on the
/// second, leaving the buffer unchanged.
#[test]
fn pod_production_stalls() {
    let mut store = Store::new();
    let pod = place_pod(&mut store, Item::RawGold, Position(0, 0));
    assert_eq!(occupied(&store, pod), vec![]);

    tick(&mut store);
    assert_eq!(occupied(&store, pod), vec![(Item::RawGold, 1)]);

    tick(&mut store);
    assert_eq!(occupied(&store, pod), vec![(Item::RawGold, 1)]);
}

/// Puts items into a belt's buffer through the public protocol.
fn load_belt(store: &mut Store, id: EntityId, item: Item, amount: u64) {
    match &mut store.entities[id.index].data {
        cog::EntityData::Belt(_, inv) => {
            let (op, _, _) = inv
                .verify(cog::VerifyOperation::Add(item, amount))
                .expect("loading add should verify");
            inv.modify(op);
        }
        _ => unreachable!(),
    }
}

/// A belt pushes its held stack into the entity on the cell it faces.
#[test]
fn belt_moves_item_downstream() {
    let mut store = Store::new();
    let downstream = place_tunnel(&mut store, Direction::East, Position(2, 3));
    let belt = store.spawn(belt_builder(Direction::East, Position(2, 2)));
    load_belt(&mut store, belt, Item::RawIron, 1);
    assert_eq!(occupied(&store, belt), vec![(Item::RawIron, 1)]);

    belt_tick(&mut store);
    assert_eq!(occupied(&store, belt), vec![]);
    assert_eq!(occupied(&store, downstream), vec![(Item::RawIron, 1)]);
}

/// A pusher pulls the whole stack of its back neighbor into its front
/// neighbor.
#[test]
fn pusher_relays_between_neighbors() {
    let mut store = Store::new();
    let back = place_tunnel(&mut store, Direction::North, Position(1, 1));
    let front = place_tunnel(&mut store, Direction::South, Position(1, 3));
    let _pusher = store.spawn(pusher_builder(Direction::East, Position(1, 2)));
    load_tunnel(&mut store, back, Item::RawCopper, 3);

    pusher_tick(&mut store);
    assert_eq!(occupied(&store, back), vec![]);
    assert_eq!(occupied(&store, front), vec![(Item::RawCopper, 3)]);
}

/// Puts items into a tunnel's buffer through the public protocol.
fn load_tunnel(store: &mut Store, id: EntityId, item: Item, amount: u64) {
    match &mut store.entities[id.index].data {
        cog::EntityData::Tunnel(_, _, inv) => {
            let (op, _, _) = inv
                .verify(cog::VerifyOperation::Add(item, amount))
                .expect("loading add should verify");
            inv.modify(op);
        }
        _ => unreachable!(),
    }
}

/// A chain of three tunnels moves an item exactly one hop per tick.
#[test]
fn tunnel_chain_one_hop_per_tick() {
    let mut store = Store::new();
    let a = place_tunnel(&mut store, Direction::East, Position(2, 0));
    let b = place_tunnel(&mut store, Direction::East, Position(2, 1));
    let c = place_tunnel(&mut store, Direction::East, Position(2, 2));
    load_tunnel(&mut store, a, Item::RawIron, 1);

    tunnel_tick(&mut store);
    assert_eq!(occupied(&store, a), vec![]);
    assert_eq!(occupied(&store, b), vec![(Item::RawIron, 1)]);
    assert_eq!(occupied(&store, c), vec![]);

    tunnel_tick(&mut store);
    assert_eq!(occupied(&store, a), vec![]);
    assert_eq!(occupied(&store, b), vec![]);
    assert_eq!(occupied(&store, c), vec![(Item::RawIron, 1)]);
}

/// Two tunnels feeding each other form a cycle: the tick is skipped and
/// every inventory stays exactly as it was.
#[test]
fn tunnel_cycle_skips_tick() {
    let mut store = Store::new();
    let a = place_tunnel(&mut store, Direction::West, Position(0, 0));
    let b = place_tunnel(&mut store, Direction::East, Position(0, 1));
    load_tunnel(&mut store, a, Item::RawTin, 2);
    load_tunnel(&mut store, b, Item::RawGold, 1);
    assert!(sorted_tunnels(&store).is_none());

    tunnel_tick(&mut store);
    assert_eq!(occupied(&store, a), vec![(Item::RawTin, 2)]);
    assert_eq!(occupied(&store, b), vec![(Item::RawGold, 1)]);
}

/// The resolver orders a chain downstream first, so each fed tunnel runs
/// before its feeder.
#[test]
fn sorted_tunnels_orders_chain() {
    let mut store = Store::new();
    let a = place_tunnel(&mut store, Direction::East, Position(2, 0));
    let b = place_tunnel(&mut store, Direction::East, Position(2, 1));
    let c = place_tunnel(&mut store, Direction::East, Position(2, 2));
    let (deps, order) = sorted_tunnels(&store).expect("a chain has no cycle");

    let pos =
        |id: EntityId| order.iter().position(|x| x.index == id.index).expect("ordered");
    assert!(pos(b) < pos(a), "the tunnel fed by a runs before a");
    assert!(pos(c) < pos(b), "the tunnel fed by b runs before b");
    assert_eq!(deps[a.index].first().map(|d| d.index), Some(b.index));
    assert_eq!(deps[b.index].first().map(|d| d.index), Some(c.index));
    assert!(deps[c.index].is_empty());
}

fn build_chain(store: &mut Store) -> (EntityId, EntityId, EntityId) {
    let a = place_tunnel(store, Direction::East, Position(2, 0));
    let b = place_tunnel(store, Direction::East, Position(2, 1));
    let c = place_tunnel(store, Direction::East, Position(2, 2));
    load_tunnel(store, a, Item::RawIron, 1);
    (a, b, c)
}

/// On a chain of tunnels the order of handler invocation does not affect
/// the final state: only the tunnel pass can act, wherever it runs.
#[test]
fn handler_order_immaterial_for_chain() {
    let mut first = Store::new();
    let (a1, b1, c1) = build_chain(&mut first);
    pod_tick(&mut first);
    belt_tick(&mut first);
    tunnel_tick(&mut first);
    pusher_tick(&mut first);

    let mut second = Store::new();
    let (a2, b2, c2) = build_chain(&mut second);
    pusher_tick(&mut second);
    tunnel_tick(&mut second);
    belt_tick(&mut second);
    pod_tick(&mut second);

    assert_eq!(occupied(&first, a1), occupied(&second, a2));
    assert_eq!(occupied(&first, b1), occupied(&second, b2));
    assert_eq!(occupied(&first, c1), occupied(&second, c2));
    assert_eq!(occupied(&first, b1), vec![(Item::RawIron, 1)]);
}

/// Asking one entity to transfer into itself fails instead of aliasing.
#[test]
fn swap_between_rejects_same_entity() {
    let mut store = Store::new();
    let a = place_tunnel(&mut store, Direction::East, Position(0, 0));
    load_tunnel(&mut store, a, Item::RawIron, 2);
    assert!(store
        .swap_between(a, a, cog::VerifyOperation::Remove(None, None))
        .is_none());
    assert_eq!(occupied(&store, a), vec![(Item::RawIron, 2)]);
}

/// When two tunnels are fed by the same entity, only the recorded (lowest
/// index) dependant receives its stack.
#[test]
fn shared_feeder_delivers_to_first_dependant() {
    let mut store = Store::new();
    let feeder = place_tunnel(&mut store, Direction::North, Position(2, 2));
    let first = place_tunnel(&mut store, Direction::East, Position(2, 3));
    let second = place_tunnel(&mut store, Direction::West, Position(2, 1));
    load_tunnel(&mut store, feeder, Item::RawGold, 1);

    tunnel_tick(&mut store);
    assert_eq!(occupied(&store, feeder), vec![]);
    assert_eq!(occupied(&store, first), vec![(Item::RawGold, 1)]);
    assert_eq!(occupied(&store, second), vec![]);
}

/// A pusher with a missing neighbor does nothing.
#[test]
fn pusher_without_neighbors_is_inert() {
    let mut store = Store::new();
    let back = place_tunnel(&mut store, Direction::North, Position(1, 1));
    let _pusher = store.spawn(pusher_builder(Direction::East, Position(1, 2)));
    load_tunnel(&mut store, back, Item::RawCopper, 3);

    pusher_tick(&mut store);
    assert_eq!(occupied(&store, back), vec![(Item::RawCopper, 3)]);
}

/// A pod feeding a tunnel drains through it tick by tick.
#[test]
fn pod_feeds_tunnel() {
    let mut store = Store::new();
    let pod = place_pod(&mut store, Item::RawSilver, Position(3, 0));
    let tunnel = place_tunnel(&mut store, Direction::East, Position(3, 1));

    tick(&mut store);
    // the pod produced before the tunnel pass, which then drained it
    assert_eq!(occupied(&store, pod), vec![]);
    assert_eq!(occupied(&store, tunnel), vec![(Item::RawSilver, 1)]);

    tick(&mut store);
    // refilled by the pod again; the tunnel has no dependant to push into
    assert_eq!(occupied(&store, pod), vec![]);
    assert_eq!(
        occupied(&store, tunnel),
        vec![(Item::RawSilver, 2)]
    );

    pod_tick(&mut store);
    assert_eq!(occupied(&store, pod), vec![(Item::RawSilver, 1)]);
}
