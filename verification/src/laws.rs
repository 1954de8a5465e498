//! What holds of the dataset whatever sequence of operations produced it.
//!
//! Each law is stated over the transitions of [`DatabaseView`] that the
//! operations' contracts are stated over.

use vstd::prelude::*;
use crate::schema::{BoardView, StrokeView};
use crate::model::{id_differs, lemma_filter_members, off_board, Call, DatabaseView};
use crate::outcome::DeleteOutcome;

verus! {

/// Within a table no two rows share an id.
pub proof fn lemma_ids_distinct(v: DatabaseView)
    requires
        v.wf(),
    ensures
        forall|i: int, j: int|
            0 <= i < v.boards.len() && 0 <= j < v.boards.len() && i != j ==> v.boards[i].id
                != v.boards[j].id,
        forall|i: int, j: int|
            0 <= i < v.strokes.len() && 0 <= j < v.strokes.len() && i != j ==> v.strokes[i].id
                != v.strokes[j].id,
{
    assert forall|i: int, j: int|
        0 <= i < v.boards.len() && 0 <= j < v.boards.len() && i != j implies v.boards[i].id
        != v.boards[j].id by {
        if i < j {
            assert(v.boards[i].id < v.boards[j].id);
        } else {
            assert(v.boards[j].id < v.boards[i].id);
        }
    }
    assert forall|i: int, j: int|
        0 <= i < v.strokes.len() && 0 <= j < v.strokes.len() && i != j implies v.strokes[i].id
        != v.strokes[j].id by {
        if i < j {
            assert(v.strokes[i].id < v.strokes[j].id);
        } else {
            assert(v.strokes[j].id < v.strokes[i].id);
        }
    }
}

/// An insert hands out an id that no row of the table has, and that is
/// larger than every id the table handed out before.
pub proof fn lemma_inserted_id_is_fresh(v: DatabaseView, name: Seq<char>, row: StrokeView)
    requires
        v.wf(),
    ensures
        v.last_board_id < u64::MAX ==> {
            &&& !v.has_board((v.last_board_id + 1) as u64)
            &&& v.with_board(name).last_board_id > v.last_board_id
            &&& v.with_board(name).wf()
        },
        v.last_stroke_id < u64::MAX ==> {
            &&& !v.has_stroke((v.last_stroke_id + 1) as u64)
            &&& v.with_stroke(row).last_stroke_id > v.last_stroke_id
            &&& v.with_stroke(row).wf()
        },
{
}

/// Every call leaves a well-formed dataset well formed, and lowers neither
/// id counter.
pub proof fn lemma_call_keeps_well_formed(v: DatabaseView, call: Call)
    requires
        v.wf(),
    ensures
        v.after_call(call).wf(),
        v.after_call(call).last_board_id >= v.last_board_id,
        v.after_call(call).last_stroke_id >= v.last_stroke_id,
{
    match call {
        Call::DeleteStroke { sender, stroke_id } => {
            v.lemma_retaining_wf(id_differs(stroke_id));
        },
        Call::DeleteStrokeAnyone { stroke_id } => {
            v.lemma_retaining_wf(id_differs(stroke_id));
        },
        Call::ClearBoard { board_id } => {
            v.lemma_retaining_wf(off_board(board_id));
        },
        _ => {},
    }
}

/// Along any sequence of calls the dataset stays well formed and the id
/// counters only grow.
pub proof fn lemma_calls_keep_well_formed(v: DatabaseView, calls: Seq<Call>, m: nat, n: nat)
    requires
        v.wf(),
        m <= n <= calls.len(),
    ensures
        v.after_calls(calls, n).wf(),
        v.after_calls(calls, m).last_board_id <= v.after_calls(calls, n).last_board_id,
        v.after_calls(calls, m).last_stroke_id <= v.after_calls(calls, n).last_stroke_id,
    decreases n,
{
    if n > 0 {
        let shorter = (n - 1) as nat;
        lemma_calls_keep_well_formed(v, calls, if m < n { m } else { shorter }, shorter);
        lemma_call_keeps_well_formed(v.after_calls(calls, shorter), calls[n - 1]);
    }
}

/// Whatever calls are made, in whatever order, no two of them are handed
/// the same board id and no two of them the same stroke id: within a table
/// a later insert gets a larger id than every earlier one, deletes and
/// clears in between or not.
pub proof fn lemma_assigned_ids_distinct(v: DatabaseView, calls: Seq<Call>, i: nat, j: nat)
    requires
        v.wf(),
        i < j < calls.len(),
    ensures
        v.board_id_from(calls, i) is Some && v.board_id_from(calls, j) is Some
            ==> v.board_id_from(calls, i)->Some_0 < v.board_id_from(calls, j)->Some_0,
        v.stroke_id_from(calls, i) is Some && v.stroke_id_from(calls, j) is Some
            ==> v.stroke_id_from(calls, i)->Some_0 < v.stroke_id_from(calls, j)->Some_0,
        v.board_id_from(calls, j) is Some ==> !v.after_calls(calls, j).has_board(
            v.board_id_from(calls, j)->Some_0,
        ),
        v.stroke_id_from(calls, j) is Some ==> !v.after_calls(calls, j).has_stroke(
            v.stroke_id_from(calls, j)->Some_0,
        ),
{
    lemma_calls_keep_well_formed(v, calls, i + 1, j);
    lemma_calls_keep_well_formed(v, calls, i, i);
    assert(v.after_calls(calls, i + 1) == v.after_calls(calls, i).after_call(calls[i as int]));
}

/// No delete and no clear makes an id available again or disturbs the order
/// of the rows that stay.
pub proof fn lemma_removals_keep_well_formed(
    v: DatabaseView,
    sender: Seq<char>,
    stroke_id: u64,
    board_id: u64,
)
    requires
        v.wf(),
    ensures
        v.after_delete(sender, stroke_id).wf(),
        v.after_delete(sender, stroke_id).last_stroke_id == v.last_stroke_id,
        v.after_delete_anyone(stroke_id).wf(),
        v.after_delete_anyone(stroke_id).last_stroke_id == v.last_stroke_id,
        v.after_clear(board_id).wf(),
        v.after_clear(board_id).last_stroke_id == v.last_stroke_id,
{
    v.lemma_retaining_wf(id_differs(stroke_id));
    v.lemma_retaining_wf(off_board(board_id));
}

/// Only its author deletes a stroke through the owner-only delete: asked by
/// anyone else the dataset stays as it is, the stroke included; asked by the
/// author the stroke is gone.
pub proof fn lemma_only_author_deletes(v: DatabaseView, sender: Seq<char>, id: u64)
    requires
        v.wf(),
        v.has_stroke(id),
    ensures
        v.stroke(id).user != sender ==> {
            &&& v.delete_verdict(sender, id) == DeleteOutcome::Forbidden
            &&& v.after_delete(sender, id) == v
        },
        v.stroke(id).user == sender ==> {
            &&& v.delete_verdict(sender, id) == DeleteOutcome::Deleted
            &&& !v.after_delete(sender, id).has_stroke(id)
        },
{
    v.lemma_retaining_rows(id_differs(id), id);
}

/// The unrestricted delete removes the stroke it names and no other.
pub proof fn lemma_delete_anyone_removes(v: DatabaseView, id: u64, other: u64)
    requires
        v.wf(),
    ensures
        !v.after_delete_anyone(id).has_stroke(id),
        other != id ==> (v.after_delete_anyone(id).has_stroke(other) <==> v.has_stroke(other)),
        other != id && v.has_stroke(other) ==> v.after_delete_anyone(id).stroke(other)
            == v.stroke(other),
        v.after_delete_anyone(id).boards == v.boards,
{
    v.lemma_retaining_rows(id_differs(id), id);
    v.lemma_retaining_rows(id_differs(id), other);
    if v.has_stroke(other) {
        let m = choose|m: int|
            0 <= m < v.strokes.len() && (#[trigger] v.strokes[m]).id == other;
        v.lemma_stroke_at(m);
    }
}

/// Clearing an existing board leaves no stroke on it, and leaves every
/// stroke on another board in place and as it was.
pub proof fn lemma_clear_is_complete(v: DatabaseView, board_id: u64, id: u64)
    requires
        v.wf(),
        v.has_board(board_id),
    ensures
        forall|i: int|
            0 <= i < v.after_clear(board_id).strokes.len() ==> (
            #[trigger] v.after_clear(board_id).strokes[i]).board_id != board_id,
        v.after_clear(board_id).has_stroke(id) <==> v.has_stroke(id) && v.stroke(id).board_id
            != board_id,
        v.after_clear(board_id).has_stroke(id) ==> v.after_clear(board_id).stroke(id)
            == v.stroke(id),
        v.after_clear(board_id).boards == v.boards,
{
    let keep = off_board(board_id);
    let f = v.strokes.filter(keep);
    v.lemma_retaining_rows(keep, id);
    lemma_filter_members(v.strokes, keep);
    assert forall|i: int| 0 <= i < f.len() implies (#[trigger] f[i]).board_id != board_id by {
        assert(f.contains(f[i]));
    }
}

/// A delete of a stroke id that no row has, and a clear of a board id that
/// no row has, change nothing.
pub proof fn lemma_missing_target_changes_nothing(
    v: DatabaseView,
    sender: Seq<char>,
    stroke_id: u64,
    board_id: u64,
)
    ensures
        !v.has_stroke(stroke_id) ==> {
            &&& v.delete_verdict(sender, stroke_id) == DeleteOutcome::NotFound
            &&& v.after_delete(sender, stroke_id) == v
            &&& v.after_delete_anyone(stroke_id) == v
        },
        !v.has_board(board_id) ==> v.after_clear(board_id) == v,
{
}

/// A stroke that was just inserted is found under its id with the fields it
/// was given; its points are the given sequence, in order and with repeats.
pub proof fn lemma_inserted_stroke_reads_back(v: DatabaseView, row: StrokeView)
    requires
        v.wf(),
        v.last_stroke_id < u64::MAX,
    ensures
        v.with_stroke(row).has_stroke((v.last_stroke_id + 1) as u64),
        v.with_stroke(row).stroke((v.last_stroke_id + 1) as u64) == (StrokeView {
            id: (v.last_stroke_id + 1) as u64,
            ..row
        }),
        v.with_stroke(row).stroke((v.last_stroke_id + 1) as u64).points == row.points,
{
    let w = v.with_stroke(row);
    assert(w.wf());
    w.lemma_stroke_at(v.strokes.len() as int);
}

/// A board that was just inserted is found under its id with the name it
/// was given, and every board that was there is found as before.
pub proof fn lemma_inserted_board_reads_back(v: DatabaseView, name: Seq<char>, id: u64)
    requires
        v.wf(),
        v.last_board_id < u64::MAX,
    ensures
        v.with_board(name).has_board((v.last_board_id + 1) as u64),
        v.with_board(name).board((v.last_board_id + 1) as u64) == (BoardView {
            id: (v.last_board_id + 1) as u64,
            name,
        }),
        v.has_board(id) ==> v.with_board(name).has_board(id) && v.with_board(name).board(id)
            == v.board(id),
{
    let w = v.with_board(name);
    assert(w.wf());
    w.lemma_board_at(v.boards.len() as int);
    if v.has_board(id) {
        let m = choose|m: int| 0 <= m < v.boards.len() && (#[trigger] v.boards[m]).id == id;
        v.lemma_board_at(m);
        assert(w.boards[m] == v.boards[m]);
        w.lemma_board_at(m);
    }
}

/// Inserting a stroke leaves every stroke that was there in place and as it
/// was.
pub proof fn lemma_insert_keeps_strokes(v: DatabaseView, row: StrokeView, id: u64)
    requires
        v.wf(),
        v.last_stroke_id < u64::MAX,
        v.has_stroke(id),
    ensures
        v.with_stroke(row).has_stroke(id),
        v.with_stroke(row).stroke(id) == v.stroke(id),
{
    let w = v.with_stroke(row);
    assert(w.wf());
    let m = choose|m: int| 0 <= m < v.strokes.len() && (#[trigger] v.strokes[m]).id == id;
    v.lemma_stroke_at(m);
    assert(w.strokes[m] == v.strokes[m]);
    w.lemma_stroke_at(m);
}

} // verus!
