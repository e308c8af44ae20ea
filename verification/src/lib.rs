//! A grid-based logistics simulation: resource pods, belts, tunnels and
//! pushers move discrete items across a bounded 2D world one tick at a time.
//!
//! The heart of the crate is a transactional inventory protocol
//! (`verify` an operation, then `modify` to commit) that moves items between
//! entities without ever creating or destroying them, and a dependency-ordered
//! tunnel scheduler that resolves chained transfers deterministically and
//! skips the whole tunnel pass when the dependency graph is cyclic.

pub mod actions;
pub mod controls;
pub mod entity;
pub mod inventory;
pub mod items;
pub mod store;
pub mod text;
pub mod tunnel;
pub mod world;

pub use actions::handle_basic;
pub use actions::handle_select;
pub use actions::move_cursor;
pub use controls::ActionCluster;
pub use controls::BasicCluster;
pub use controls::WorldCluster;
pub use entity::belt_tick;
pub use entity::pod_tick;
pub use entity::pusher_tick;
pub use entity::tick;
pub use inventory::After;
pub use inventory::Amount;
pub use inventory::Before;
pub use inventory::Inventory;
pub use inventory::ModifyOperation;
pub use inventory::PlayerInventory;
pub use inventory::SimpleInventory;
pub use inventory::Slot;
pub use inventory::VerifyOperation;
pub use inventory::hash;
pub use items::EntityId;
pub use items::EntityKind;
pub use items::Item;
pub use items::ZoomLevel;
pub use store::BeltData;
pub use store::EntityData;
pub use store::Entry;
pub use store::PlayerData;
pub use store::PodData;
pub use store::PusherData;
pub use store::Store;
pub use store::TunnelData;
pub use store::belt_builder;
pub use store::player_builder;
pub use store::pod_builder;
pub use store::pusher_builder;
pub use store::tunnel_builder;
pub use text::height;
pub use text::width;
pub use tunnel::sorted_tunnels;
pub use tunnel::tunnel_tick;
pub use world::Direction;
pub use world::Position;
pub use world::SIZE;
pub use world::World;
