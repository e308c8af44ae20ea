//! Items: the tagged value held by a grid cell or an inventory slot —
//! nothing, a raw resource, or a reference to a simulated entity.

use vstd::prelude::*;

verus! {

/// The type tag of a simulated entity. Part of an [`EntityId`], so dispatch
/// by type needs no lookup.
#[derive(Debug, Clone, Copy, PartialEq, Eq, Structural, Hash)]
pub enum EntityKind {
    Player,
    Pod,
    Belt,
    Tunnel,
    Pusher,
}

/// A stable identifier of one simulated entity: its sequential index in the
/// registry paired with its type tag.
#[derive(Debug, Clone, Copy, PartialEq, Eq, Structural, Hash)]
pub struct EntityId {
    pub index: usize,
    pub kind: EntityKind,
}

/// What a grid cell or an inventory slot holds: nothing, one of the raw
/// resource kinds, or a reference to a production or conveyance entity.
/// An occupied cell has exactly one canonical representation.
#[derive(Debug, Clone, Copy, PartialEq, Eq, Structural, Hash)]
pub enum Item {
    Empty,
    RawIron,
    RawCopper,
    RawGold,
    RawSilver,
    RawTin,
    Pod(EntityId),
    Tunnel(EntityId),
}

impl Item {
    /// The entity this item refers to, if it refers to one.
    pub open spec fn entity_spec(self) -> Option<EntityId> {
        match self {
            Item::Pod(e) => Some(e),
            Item::Tunnel(e) => Some(e),
            _ => None,
        }
    }

    /// Returns the referenced entity for the entity-bearing variants.
    pub fn entity(&self) -> (r: Option<EntityId>)
        ensures
            r == self.entity_spec(),
    {
        match self {
            Item::Pod(e) => Some(*e),
            Item::Tunnel(e) => Some(*e),
            _ => None,
        }
    }

    /// A short label for the item kind, for display layers to use.
    pub fn name(&self) -> &'static str {
        match self {
            Item::Empty => "Empty",
            Item::RawIron => "Raw Iron",
            Item::RawCopper => "Raw Copper",
            Item::RawGold => "Raw Gold",
            Item::RawSilver => "Raw Silver",
            Item::RawTin => "Raw Tin",
            Item::Pod(_) => "Pod",
            Item::Tunnel(_) => "Tunnel",
        }
    }
}

/// How many terminal cells one grid cell takes when rendered.
#[derive(Debug, Clone, Copy, PartialEq, Eq, Structural)]
pub enum ZoomLevel {
    Close,
    Far,
}

impl ZoomLevel {
    /// The rendered size, in terminal rows, of one grid cell.
    pub fn scale(&self) -> (r: usize)
        ensures
            self is Close ==> r == 2,
            self is Far ==> r == 1,
    {
        match self {
            ZoomLevel::Close => 2,
            ZoomLevel::Far => 1,
        }
    }

    /// The next closer zoom level, if any.
    pub fn zoom_in(&self) -> (r: ZoomLevel)
        ensures
            r == ZoomLevel::Close,
    {
        ZoomLevel::Close
    }

    /// The next farther zoom level, if any.
    pub fn zoom_out(&self) -> (r: ZoomLevel)
        ensures
            r == ZoomLevel::Far,
    {
        ZoomLevel::Far
    }
}

} // verus!
