use cog::handle_basic;
use cog::handle_select;
use cog::height;
use cog::move_cursor;
use cog::player_builder;
use cog::pod_builder;
use cog::width;
use cog::BasicCluster;
use cog::Direction;
use cog::EntityKind;
use cog::Item;
use cog::Position;
use cog::Store;
use cog::World;
use cog::ZoomLevel;
use cog::SIZE;

#[test]
fn move_by_stays_on_grid() {
    let p = Position(2, 2);
    assert_eq!(p.move_by(Direction::North, 1), Some(Position(1, 2)));
    assert_eq!(p.move_by(Direction::South, 1), Some(Position(3, 2)));
    assert_eq!(p.move_by(Direction::East, 1), Some(Position(2, 3)));
    assert_eq!(p.move_by(Direction::West, 1), Some(Position(2, 1)));
    assert_eq!(p.move_by(Direction::South, 2), Some(Position(4, 2)));

    assert_eq!(Position(0, 0).move_by(Direction::North, 1), None);
    assert_eq!(Position(0, 0).move_by(Direction::West, 1), None);
    assert_eq!(Position(4, 4).move_by(Direction::South, 1), None);
    assert_eq!(Position(4, 4).move_by(Direction::East, 1), None);
    assert_eq!(Position(2, 2).move_by(Direction::East, SIZE), None);
    assert_eq!(Position(2, 2).move_by(Direction::East, 0), Some(Position(2, 2)));
}

#[test]
fn flip_is_opposite() {
    assert_eq!(Direction::North.flip(), Direction::South);
    assert_eq!(Direction::South.flip(), Direction::North);
    assert_eq!(Direction::East.flip(), Direction::West);
    assert_eq!(Direction::West.flip(), Direction::East);
    for d in [
        Direction::North,
        Direction::South,
        Direction::East,
        Direction::West,
    ] {
        assert_eq!(d.flip().flip(), d);
    }
}

#[test]
fn world_place_and_destroy() {
    let mut world = World::new();
    assert_eq!(world.size(), SIZE);
    assert_eq!(world.get(Position(1, 3)), Item::Empty);

    world.place(Item::RawGold, Position(1, 3));
    assert_eq!(world.get(Position(1, 3)), Item::RawGold);
    assert_eq!(world.get(Position(3, 1)), Item::Empty);

    world.destroy(Position(1, 3));
    assert_eq!(world.get(Position(1, 3)), Item::Empty);
}

#[test]
fn zoom_levels() {
    assert_eq!(ZoomLevel::Close.scale(), 2);
    assert_eq!(ZoomLevel::Far.scale(), 1);
    assert_eq!(ZoomLevel::Far.zoom_in(), ZoomLevel::Close);
    assert_eq!(ZoomLevel::Close.zoom_out(), ZoomLevel::Far);
}

#[test]
fn item_labels() {
    assert_eq!(Item::Empty.name(), "Empty");
    assert_eq!(Item::RawIron.name(), "Raw Iron");
    assert_eq!(Item::RawGold.name(), "Raw Gold");
}

#[test]
fn text_measures() {
    assert_eq!(width(""), 0);
    assert_eq!(height(""), 0);
    assert_eq!(width("abcd\nefg\nhijkl\nmnop"), 5);
    assert_eq!(height("abcd\nefg\nhijkl\nmnop"), 4);
    assert_eq!(height("one\n"), 1);
    assert_eq!(height("\n"), 1);
    assert_eq!(width("ab\r\ncdef"), 4);
    assert_eq!(height("ab\r\ncdef"), 2);
}

#[test]
fn cursor_moves_with_player() {
    let mut store = Store::new();
    let player = store.spawn(player_builder(Position(0, 0)));
    assert_eq!(store.get_player(), Some(player));
    assert_eq!(player.kind, EntityKind::Player);

    handle_basic(&mut store, BasicCluster::Down);
    assert_eq!(store.world.cursor, Position(1, 0));
    assert_eq!(store.entities[player.index].position, Some(Position(1, 0)));

    handle_basic(&mut store, BasicCluster::Right);
    assert_eq!(store.world.cursor, Position(1, 1));

    // moving off the edge changes nothing
    move_cursor(&mut store, Direction::North);
    move_cursor(&mut store, Direction::North);
    assert_eq!(store.world.cursor, Position(0, 1));
    move_cursor(&mut store, Direction::North);
    assert_eq!(store.world.cursor, Position(0, 1));
}

#[test]
fn select_picks_up_and_places() {
    let mut store = Store::new();
    let player = store.spawn(player_builder(Position(0, 0)));
    let pod = store.spawn(pod_builder(Item::RawGold, Position(0, 0)));
    store.world.place(Item::Pod(pod), Position(0, 0));

    // pick the pod up: the cell clears and the pod leaves the grid
    handle_select(&mut store);
    assert_eq!(store.world.get(Position(0, 0)), Item::Empty);
    assert_eq!(store.entities[pod.index].position, None);
    let carried = store
        .inventory(player)
        .expect("player holds an inventory")
        .slots();
    assert_eq!(carried[0], (Item::Pod(pod), 1));

    // selecting the same empty cell places it back
    handle_select(&mut store);
    assert_eq!(store.world.get(Position(0, 0)), Item::Pod(pod));
    assert_eq!(store.entities[pod.index].position, Some(Position(0, 0)));
    let carried = store
        .inventory(player)
        .expect("player holds an inventory")
        .slots();
    assert_eq!(carried[0], (Item::Empty, 0));
}

#[test]
fn select_with_empty_hand_does_nothing() {
    let mut store = Store::new();
    let _player = store.spawn(player_builder(Position(2, 2)));
    move_cursor(&mut store, Direction::South);
    let before_cursor = store.world.cursor;
    handle_select(&mut store);
    assert_eq!(store.world.cursor, before_cursor);
    assert_eq!(store.world.get(before_cursor), Item::Empty);
}
