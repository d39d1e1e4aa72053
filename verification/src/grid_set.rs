use vstd::prelude::*;
use crate::grid::CellKind;
use crate::search::{SearchRecord, Status};

verus! {

/// The one display tag of a cell, combining its lasting kind with its
/// transient search status by the fixed priority
/// Start > End > Path > Obstacle > Open > Closed > Blank, so role cells
/// stay visible during and after a run.
#[derive(Clone, Copy, Debug, PartialEq, Eq, Structural)]
pub enum NodeState {
    Start,
    End,
    Blank,
    Obstacle,
    Path,
    Open,
    Closed,
}

/// A read-only display snapshot of one cell.
#[derive(Clone, Copy, Debug, PartialEq, Eq, Structural)]
pub struct Node {
    pub state: NodeState,
}

/// The display priority rule.
pub open spec fn display_spec(kind: CellKind, rec: SearchRecord) -> NodeState {
    if kind is Start {
        NodeState::Start
    } else if kind is End {
        NodeState::End
    } else if rec.on_path {
        NodeState::Path
    } else if kind is Obstacle {
        NodeState::Obstacle
    } else if rec.status is Open {
        NodeState::Open
    } else if rec.status is Closed {
        NodeState::Closed
    } else {
        NodeState::Blank
    }
}

/// Combines a cell's kind and its search record into its display tag.
pub fn display_tag(kind: CellKind, rec: SearchRecord) -> (n: NodeState)
    ensures
        n == display_spec(kind, rec),
{
    if kind == CellKind::Start {
        NodeState::Start
    } else if kind == CellKind::End {
        NodeState::End
    } else if rec.on_path {
        NodeState::Path
    } else if kind == CellKind::Obstacle {
        NodeState::Obstacle
    } else if rec.status == Status::Open {
        NodeState::Open
    } else if rec.status == Status::Closed {
        NodeState::Closed
    } else {
        NodeState::Blank
    }
}

} // verus!
