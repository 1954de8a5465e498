//! The rows of the two tables and the per-call context.

use vstd::prelude::*;

verus! {

/// A named container that strokes refer to by `board_id`.
#[derive(Clone, Debug, PartialEq, Eq)]
pub struct Board {
    /// Primary key, assigned by the dataset on insert.
    pub id: u64,
    /// Display label; neither validated nor unique.
    pub name: String,
}

/// One vertex of a stroke.
///
/// Each coordinate is kept as the IEEE-754 bit pattern of a single-precision
/// number, so a point is stored and handed back exactly as it was supplied.
#[derive(Clone, Copy, Debug, PartialEq, Eq, Structural)]
pub struct Point {
    pub x: u32,
    pub y: u32,
}

/// One continuous drawing action.
#[derive(Clone, Debug, PartialEq, Eq)]
pub struct Stroke {
    /// Primary key, assigned by the dataset on insert.
    pub id: u64,
    /// The board this stroke was drawn on. Nothing requires that board to exist.
    pub board_id: u64,
    /// Identity of the author, taken from the caller at creation.
    pub user: String,
    pub color: String,
    /// IEEE-754 bit pattern of the single-precision line width.
    pub thickness: u32,
    /// Vertices in drawing order.
    pub points: Vec<Point>,
    /// Creation time in milliseconds since the Unix epoch.
    pub timestamp: u64,
}

/// What the host supplies with every call: who is calling, and when.
#[derive(Clone, Debug, PartialEq, Eq)]
pub struct Context {
    /// Authenticated identity of the caller.
    pub sender: String,
    /// Server time in milliseconds since the Unix epoch.
    pub timestamp: u64,
}

/// Mathematical value of a [`Board`] row.
pub ghost struct BoardView {
    pub id: u64,
    pub name: Seq<char>,
}

/// Mathematical value of a [`Stroke`] row.
pub ghost struct StrokeView {
    pub id: u64,
    pub board_id: u64,
    pub user: Seq<char>,
    pub color: Seq<char>,
    pub thickness: u32,
    pub points: Seq<Point>,
    pub timestamp: u64,
}

impl View for Board {
    type V = BoardView;

    open spec fn view(&self) -> BoardView {
        BoardView { id: self.id, name: self.name@ }
    }
}

impl View for Stroke {
    type V = StrokeView;

    open spec fn view(&self) -> StrokeView {
        StrokeView {
            id: self.id,
            board_id: self.board_id,
            user: self.user@,
            color: self.color@,
            thickness: self.thickness,
            points: self.points@,
            timestamp: self.timestamp,
        }
    }
}

} // verus!
