//! State authority for a shared whiteboard: boards, strokes, and the
//! operations that create and delete them, with every operation's effect on
//! the tables stated as a contract over a mathematical model of the dataset.

pub mod schema;
pub mod outcome;
pub mod model;
pub mod database;
pub mod lifecycle;
pub mod laws;

pub use database::{
    add_stroke, clear_board, create_board, delete_stroke, delete_stroke_anyone, Database,
};
pub use lifecycle::{identity_connected, identity_disconnected, init};
pub use model::{Call, DatabaseView};
pub use outcome::{ClearOutcome, DeleteOutcome, InsertError, Level};
pub use schema::{Board, BoardView, Context, Point, Stroke, StrokeView};
