//! The dataset itself and the operations that change it.

use vstd::prelude::*;
use crate::schema::{Board, BoardView, Context, Point, Stroke, StrokeView};
use crate::model::{
    id_differs, lemma_filter_step, lemma_remove_is_filter, off_board, DatabaseView,
};
use crate::outcome::{ClearOutcome, DeleteOutcome, InsertError};

verus! {

/// The two tables, each with the counter it assigns ids from.
///
/// Rows are kept in insertion order. Ids start at 1 and an id that was
/// handed out is never handed out again, also after its row is deleted.
/// Every value of this type is well formed in the sense of
/// [`DatabaseView::wf`].
pub struct Database {
    boards: Vec<Board>,
    strokes: Vec<Stroke>,
    last_board_id: u64,
    last_stroke_id: u64,
}

/// The mathematical rows of a stored board table.
pub closed spec fn board_rows(rows: Seq<Board>) -> Seq<BoardView> {
    rows.map_values(|b: Board| b@)
}

/// The mathematical rows of a stored stroke table.
pub closed spec fn stroke_rows(rows: Seq<Stroke>) -> Seq<StrokeView> {
    rows.map_values(|s: Stroke| s@)
}

impl View for Database {
    type V = DatabaseView;

    closed spec fn view(&self) -> DatabaseView {
        DatabaseView {
            boards: board_rows(self.boards@),
            strokes: stroke_rows(self.strokes@),
            last_board_id: self.last_board_id,
            last_stroke_id: self.last_stroke_id,
        }
    }
}

impl Database {
    #[verifier::type_invariant]
    closed spec fn well_formed(&self) -> bool {
        self@.wf()
    }

    /// A dataset with no rows and no id handed out yet.
    pub fn new() -> (db: Database)
        ensures
            db@ == DatabaseView::empty(),
            db@.wf(),
    {
        Database::resume(0, 0)
    }

    /// An empty dataset whose tables go on from ids handed out earlier: the
    /// next board gets the id after `last_board_id`, the next stroke the id
    /// after `last_stroke_id`.
    pub fn resume(last_board_id: u64, last_stroke_id: u64) -> (db: Database)
        ensures
            db@ == (DatabaseView {
                boards: Seq::empty(),
                strokes: Seq::empty(),
                last_board_id,
                last_stroke_id,
            }),
            db@.wf(),
    {
        let boards: Vec<Board> = Vec::new();
        let strokes: Vec<Stroke> = Vec::new();
        proof {
            assert(board_rows(boards@) =~= Seq::empty());
            assert(stroke_rows(strokes@) =~= Seq::empty());
        }
        Database { boards, strokes, last_board_id, last_stroke_id }
    }

    /// Number of boards.
    pub fn board_count(&self) -> (n: usize)
        ensures
            n == self@.boards.len(),
    {
        self.boards.len()
    }

    /// Number of strokes, over all boards.
    pub fn stroke_count(&self) -> (n: usize)
        ensures
            n == self@.strokes.len(),
    {
        self.strokes.len()
    }

    fn board_position(&self, id: u64) -> (r: Option<usize>)
        ensures
            match r {
                Some(i) => i < self@.boards.len() && self@.boards[i as int].id == id,
                None => !self@.has_board(id),
            },
    {
        let mut i: usize = 0;
        while i < self.boards.len()
            invariant
                i <= self.boards.len(),
                forall|j: int| 0 <= j < i ==> (#[trigger] self@.boards[j]).id != id,
            decreases self.boards.len() - i,
        {
            if self.boards[i].id == id {
                return Some(i);
            }
            i += 1;
        }
        None
    }

    fn stroke_position(&self, id: u64) -> (r: Option<usize>)
        ensures
            match r {
                Some(i) => i < self@.strokes.len() && self@.strokes[i as int].id == id,
                None => !self@.has_stroke(id),
            },
    {
        let mut i: usize = 0;
        while i < self.strokes.len()
            invariant
                i <= self.strokes.len(),
                forall|j: int| 0 <= j < i ==> (#[trigger] self@.strokes[j]).id != id,
            decreases self.strokes.len() - i,
        {
            if self.strokes[i].id == id {
                return Some(i);
            }
            i += 1;
        }
        None
    }

    /// Looks a board up by its id.
    pub fn find_board(&self, id: u64) -> (r: Option<&Board>)
        ensures
            self@.wf(),
            match r {
                Some(b) => self@.has_board(id) && b@ == self@.board(id),
                None => !self@.has_board(id),
            },
    {
        proof {
            use_type_invariant(self);
        }
        match self.board_position(id) {
            Some(i) => {
                proof {
                    self@.lemma_board_at(i as int);
                }
                Some(&self.boards[i])
            },
            None => None,
        }
    }

    /// Looks a stroke up by its id.
    pub fn find_stroke(&self, id: u64) -> (r: Option<&Stroke>)
        ensures
            self@.wf(),
            match r {
                Some(s) => self@.has_stroke(id) && s@ == self@.stroke(id),
                None => !self@.has_stroke(id),
            },
    {
        proof {
            use_type_invariant(self);
        }
        match self.stroke_position(id) {
            Some(i) => {
                proof {
                    self@.lemma_stroke_at(i as int);
                }
                Some(&self.strokes[i])
            },
            None => None,
        }
    }

    /// Takes the board table out and leaves an empty one in its place.
    ///
    /// A table is changed while it is out and put back when it is done, so
    /// that the dataset is well formed at every step.
    fn take_boards(&mut self) -> (rows: Vec<Board>)
        ensures
            board_rows(rows@) == old(self)@.boards,
            final(self)@ == (DatabaseView { boards: Seq::empty(), ..old(self)@ }),
    {
        proof {
            use_type_invariant(&*self);
        }
        let mut rows: Vec<Board> = Vec::new();
        proof {
            assert(board_rows(rows@) =~= Seq::empty());
            assert((DatabaseView { boards: Seq::empty(), ..self@ }).wf());
        }
        core::mem::swap(&mut self.boards, &mut rows);
        rows
    }

    /// Puts `rows` back in place of the board table that was taken out, and
    /// sets the last board id.
    fn put_boards(&mut self, rows: Vec<Board>, last_board_id: u64)
        requires
            old(self)@.boards.len() == 0,
            (DatabaseView { boards: board_rows(rows@), last_board_id, ..old(self)@ }).wf(),
        ensures
            final(self)@ == (DatabaseView {
                boards: board_rows(rows@),
                last_board_id,
                ..old(self)@
            }),
    {
        proof {
            use_type_invariant(&*self);
        }
        let ghost put = DatabaseView { boards: board_rows(rows@), last_board_id, ..self@ };
        let mut rows = rows;
        proof {
            assert((DatabaseView { last_board_id, ..self@ }).wf());
        }
        self.last_board_id = last_board_id;
        proof {
            assert(put.wf());
        }
        core::mem::swap(&mut self.boards, &mut rows);
    }

    /// Takes the stroke table out and leaves an empty one in its place.
    fn take_strokes(&mut self) -> (rows: Vec<Stroke>)
        ensures
            stroke_rows(rows@) == old(self)@.strokes,
            final(self)@ == (DatabaseView { strokes: Seq::empty(), ..old(self)@ }),
    {
        proof {
            use_type_invariant(&*self);
        }
        let mut rows: Vec<Stroke> = Vec::new();
        proof {
            assert(stroke_rows(rows@) =~= Seq::empty());
            assert((DatabaseView { strokes: Seq::empty(), ..self@ }).wf());
        }
        core::mem::swap(&mut self.strokes, &mut rows);
        rows
    }

    /// Puts `rows` back in place of the stroke table that was taken out, and
    /// sets the last stroke id.
    fn put_strokes(&mut self, rows: Vec<Stroke>, last_stroke_id: u64)
        requires
            old(self)@.strokes.len() == 0,
            (DatabaseView { strokes: stroke_rows(rows@), last_stroke_id, ..old(self)@ }).wf(),
        ensures
            final(self)@ == (DatabaseView {
                strokes: stroke_rows(rows@),
                last_stroke_id,
                ..old(self)@
            }),
    {
        proof {
            use_type_invariant(&*self);
        }
        let ghost put = DatabaseView { strokes: stroke_rows(rows@), last_stroke_id, ..self@ };
        let mut rows = rows;
        proof {
            assert((DatabaseView { last_stroke_id, ..self@ }).wf());
        }
        self.last_stroke_id = last_stroke_id;
        proof {
            assert(put.wf());
        }
        core::mem::swap(&mut self.strokes, &mut rows);
    }

    /// Drops the stroke at index `i`.
    fn remove_stroke_at(&mut self, i: usize)
        requires
            i < old(self)@.strokes.len(),
        ensures
            final(self)@.wf(),
            final(self)@ == old(self)@.without_stroke(old(self)@.strokes[i as int].id),
    {
        proof {
            use_type_invariant(&*self);
        }
        let ghost before = self@;
        let last_stroke_id = self.last_stroke_id;
        let mut rows = self.take_strokes();
        rows.remove(i);
        proof {
            assert(stroke_rows(rows@) =~= before.strokes.remove(i as int));
            lemma_remove_is_filter(before.strokes, i as int);
            before.lemma_retaining_wf(id_differs(before.strokes[i as int].id));
            assert(before.without_stroke(before.strokes[i as int].id).strokes == stroke_rows(
                rows@,
            ));
        }
        self.put_strokes(rows, last_stroke_id);
    }
}

/// Inserts a board named `name` under the next board id and returns that id.
///
/// The name is taken as it is: it may be empty, and it may repeat. The one
/// insert that is turned down is the one after the largest id was handed out.
pub fn create_board(db: &mut Database, _ctx: &Context, name: String) -> (r: Result<
    u64,
    InsertError,
>)
    ensures
        final(db)@.wf(),
        r is Ok <==> old(db)@.last_board_id < u64::MAX,
        r is Ok ==> r->Ok_0 == old(db)@.last_board_id + 1 && !old(db)@.has_board(r->Ok_0),
        final(db)@ == old(db)@.after_create(name@),
{
    proof {
        use_type_invariant(&*db);
    }
    if db.last_board_id == u64::MAX {
        return Err(InsertError::SequenceExhausted);
    }
    let ghost before = db@;
    let id: u64 = db.last_board_id + 1;
    let mut rows = db.take_boards();
    rows.push(Board { id, name });
    proof {
        assert(board_rows(rows@) =~= before.boards.push(BoardView { id, name: name@ }));
        assert(before.with_board(name@).wf());
    }
    db.put_boards(rows, id);
    Ok(id)
}

/// Inserts a stroke under the next stroke id and returns that id.
///
/// The author is the caller and the time is the call's time; the rest is
/// stored as given, the points in their order. Whether a board `board_id`
/// exists is not looked at. The one insert that is turned down is the one
/// after the largest id was handed out.
pub fn add_stroke(
    db: &mut Database,
    ctx: &Context,
    board_id: u64,
    color: String,
    thickness: u32,
    points: Vec<Point>,
) -> (r: Result<u64, InsertError>)
    ensures
        final(db)@.wf(),
        r is Ok <==> old(db)@.last_stroke_id < u64::MAX,
        r is Ok ==> r->Ok_0 == old(db)@.last_stroke_id + 1 && !old(db)@.has_stroke(r->Ok_0),
        final(db)@ == old(db)@.after_add(
            (StrokeView {
                id: 0,
                board_id,
                user: ctx.sender@,
                color: color@,
                thickness,
                points: points@,
                timestamp: ctx.timestamp,
            }),
        ),
{
    proof {
        use_type_invariant(&*db);
    }
    if db.last_stroke_id == u64::MAX {
        return Err(InsertError::SequenceExhausted);
    }
    let ghost before = db@;
    let id: u64 = db.last_stroke_id + 1;
    let row = Stroke {
        id,
        board_id,
        user: ctx.sender.clone(),
        color,
        thickness,
        points,
        timestamp: ctx.timestamp,
    };
    let ghost added = row@;
    let mut rows = db.take_strokes();
    rows.push(row);
    proof {
        assert(stroke_rows(rows@) =~= before.strokes.push(added));
        assert(before.with_stroke(added).wf());
    }
    db.put_strokes(rows, id);
    Ok(id)
}

/// Deletes the stroke `stroke_id` if the caller is its author.
///
/// The answer tells the three cases apart; the dataset changes in the first
/// of them only.
pub fn delete_stroke(db: &mut Database, ctx: &Context, stroke_id: u64) -> (r: DeleteOutcome)
    ensures
        final(db)@.wf(),
        r == old(db)@.delete_verdict(ctx.sender@, stroke_id),
        final(db)@ == old(db)@.after_delete(ctx.sender@, stroke_id),
{
    proof {
        use_type_invariant(&*db);
    }
    match db.stroke_position(stroke_id) {
        None => DeleteOutcome::NotFound,
        Some(i) => {
            proof {
                db@.lemma_stroke_at(i as int);
            }
            if db.strokes[i].user == ctx.sender {
                db.remove_stroke_at(i);
                DeleteOutcome::Deleted
            } else {
                DeleteOutcome::Forbidden
            }
        },
    }
}

/// Deletes the stroke `stroke_id`, whoever its author is.
///
/// Nothing is asked of the caller: who may call this is for the host to
/// decide.
pub fn delete_stroke_anyone(db: &mut Database, _ctx: &Context, stroke_id: u64) -> (r:
    DeleteOutcome)
    ensures
        final(db)@.wf(),
        r == if old(db)@.has_stroke(stroke_id) {
            DeleteOutcome::Deleted
        } else {
            DeleteOutcome::NotFound
        },
        final(db)@ == old(db)@.after_delete_anyone(stroke_id),
{
    proof {
        use_type_invariant(&*db);
    }
    match db.stroke_position(stroke_id) {
        None => DeleteOutcome::NotFound,
        Some(i) => {
            db.remove_stroke_at(i);
            DeleteOutcome::Deleted
        },
    }
}

/// Removes every stroke on the board `board_id`, if there is such a board.
///
/// Strokes on other boards stay as they are, in their order. Where no board
/// has that id nothing changes, also if strokes refer to it.
pub fn clear_board(db: &mut Database, _ctx: &Context, board_id: u64) -> (r: ClearOutcome)
    ensures
        final(db)@.wf(),
        r == if old(db)@.has_board(board_id) {
            ClearOutcome::Cleared
        } else {
            ClearOutcome::BoardNotFound
        },
        final(db)@ == old(db)@.after_clear(board_id),
{
    proof {
        use_type_invariant(&*db);
    }
    if db.board_position(board_id).is_none() {
        return ClearOutcome::BoardNotFound;
    }
    let ghost start = db@;
    let ghost keep = off_board(board_id);
    let ghost k: int = 0;
    let last_stroke_id = db.last_stroke_id;
    let mut rows = db.take_strokes();
    proof {
        assert(start.strokes.subrange(0, 0).filter(keep) =~= Seq::<StrokeView>::empty()) by {
            reveal(Seq::filter);
        }
        assert(start.strokes.subrange(0, start.strokes.len() as int) =~= start.strokes);
    }
    let mut i: usize = 0;
    while i < rows.len()
        invariant
            keep == off_board(board_id),
            0 <= k <= start.strokes.len(),
            i <= rows.len(),
            i == start.strokes.subrange(0, k).filter(keep).len(),
            stroke_rows(rows@) =~= start.strokes.subrange(0, k).filter(keep)
                + start.strokes.subrange(k, start.strokes.len() as int),
        decreases start.strokes.len() - k,
    {
        proof {
            lemma_filter_step(start.strokes, keep, k);
            assert(stroke_rows(rows@)[i as int] == start.strokes[k]);
        }
        let ghost prev = stroke_rows(rows@);
        if rows[i].board_id == board_id {
            rows.remove(i);
            proof {
                assert(stroke_rows(rows@) =~= prev.remove(i as int));
            }
        } else {
            i += 1;
        }
        proof {
            k = k + 1;
            assert(stroke_rows(rows@) =~= start.strokes.subrange(0, k).filter(keep)
                + start.strokes.subrange(k, start.strokes.len() as int));
        }
    }
    proof {
        assert(start.strokes.subrange(0, k) =~= start.strokes);
        assert(stroke_rows(rows@) =~= start.strokes.filter(keep));
        start.lemma_retaining_wf(keep);
    }
    db.put_strokes(rows, last_stroke_id);
    ClearOutcome::Cleared
}

} // verus!
