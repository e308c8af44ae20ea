//! The abstract player actions the simulation accepts. Mapping key events
//! to these actions is the surrounding interface layer's business; the
//! simulation only consumes the actions themselves.

use vstd::prelude::*;

verus! {

/// Basic cursor movement and selection.
#[derive(Debug, Clone, Copy, PartialEq, Eq, Structural)]
pub enum BasicCluster {
    Left,
    Right,
    Up,
    Down,
    Select,
}

/// Leaving a view or the whole session.
#[derive(Debug, Clone, Copy, PartialEq, Eq, Structural)]
pub enum ActionCluster {
    Back,
    Exit,
}

/// World-view actions.
#[derive(Debug, Clone, Copy, PartialEq, Eq, Structural)]
pub enum WorldCluster {
    Interact,
    ZoomIn,
    ZoomOut,
}

} // verus!
