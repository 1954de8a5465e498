//! The dataset as a mathematical value, and the transitions between such
//! values that the operations realise.

use vstd::prelude::*;
use crate::outcome::DeleteOutcome;
use crate::schema::{BoardView, StrokeView};

verus! {

/// Selects the stroke rows whose id is not `id`.
pub open spec fn id_differs(id: u64) -> spec_fn(StrokeView) -> bool {
    |s: StrokeView| s.id != id
}

/// Selects the stroke rows that are not on board `board_id`.
pub open spec fn off_board(board_id: u64) -> spec_fn(StrokeView) -> bool {
    |s: StrokeView| s.board_id != board_id
}

/// One call of an operation, as far as the dataset is concerned.
pub ghost enum Call {
    /// Insert a board with this name.
    CreateBoard { name: Seq<char> },
    /// Insert this stroke; the `id` of `row` is ignored.
    AddStroke { row: StrokeView },
    /// Owner-only delete of a stroke, asked for by `sender`.
    DeleteStroke { sender: Seq<char>, stroke_id: u64 },
    /// Unrestricted delete of a stroke.
    DeleteStrokeAnyone { stroke_id: u64 },
    /// Clear a board.
    ClearBoard { board_id: u64 },
}

/// Both tables, rows in insertion order, with the last id each table assigned.
pub ghost struct DatabaseView {
    pub boards: Seq<BoardView>,
    pub strokes: Seq<StrokeView>,
    pub last_board_id: u64,
    pub last_stroke_id: u64,
}

impl DatabaseView {
    /// The dataset before anything was inserted.
    pub open spec fn empty() -> DatabaseView {
        DatabaseView {
            boards: Seq::empty(),
            strokes: Seq::empty(),
            last_board_id: 0,
            last_stroke_id: 0,
        }
    }

    /// Ids in each table ascend strictly in insertion order, start at 1, and
    /// never exceed the last id the table assigned.
    pub open spec fn wf(self) -> bool {
        &&& forall|i: int, j: int|
            0 <= i < j < self.boards.len() ==> self.boards[i].id < self.boards[j].id
        &&& forall|i: int|
            0 <= i < self.boards.len() ==> 1 <= (#[trigger] self.boards[i]).id
                <= self.last_board_id
        &&& forall|i: int, j: int|
            0 <= i < j < self.strokes.len() ==> self.strokes[i].id < self.strokes[j].id
        &&& forall|i: int|
            0 <= i < self.strokes.len() ==> 1 <= (#[trigger] self.strokes[i]).id
                <= self.last_stroke_id
    }

    pub open spec fn has_board(self, id: u64) -> bool {
        exists|i: int| 0 <= i < self.boards.len() && (#[trigger] self.boards[i]).id == id
    }

    pub open spec fn has_stroke(self, id: u64) -> bool {
        exists|i: int| 0 <= i < self.strokes.len() && (#[trigger] self.strokes[i]).id == id
    }

    /// The board row with this id, where there is one.
    pub open spec fn board(self, id: u64) -> BoardView
        recommends
            self.has_board(id),
    {
        self.boards[choose|i: int|
            0 <= i < self.boards.len() && (#[trigger] self.boards[i]).id == id]
    }

    /// The stroke row with this id, where there is one.
    pub open spec fn stroke(self, id: u64) -> StrokeView
        recommends
            self.has_stroke(id),
    {
        self.strokes[choose|i: int|
            0 <= i < self.strokes.len() && (#[trigger] self.strokes[i]).id == id]
    }

    /// The dataset after a board named `name` was inserted under the next id.
    pub open spec fn with_board(self, name: Seq<char>) -> DatabaseView
        recommends
            self.last_board_id < u64::MAX,
    {
        let id = (self.last_board_id + 1) as u64;
        DatabaseView {
            boards: self.boards.push(BoardView { id, name }),
            strokes: self.strokes,
            last_board_id: id,
            last_stroke_id: self.last_stroke_id,
        }
    }

    /// The dataset after a stroke was inserted under the next id. The `id`
    /// of `row` is ignored.
    pub open spec fn with_stroke(self, row: StrokeView) -> DatabaseView
        recommends
            self.last_stroke_id < u64::MAX,
    {
        let id = (self.last_stroke_id + 1) as u64;
        DatabaseView {
            boards: self.boards,
            strokes: self.strokes.push(StrokeView { id, ..row }),
            last_board_id: self.last_board_id,
            last_stroke_id: id,
        }
    }

    /// The dataset with only those strokes that pass `keep`, in their order.
    /// Boards and both id counters stay: an id that was handed out stays used.
    pub open spec fn retaining(self, keep: spec_fn(StrokeView) -> bool) -> DatabaseView {
        DatabaseView {
            boards: self.boards,
            strokes: self.strokes.filter(keep),
            last_board_id: self.last_board_id,
            last_stroke_id: self.last_stroke_id,
        }
    }

    /// The dataset without the stroke `id`.
    pub open spec fn without_stroke(self, id: u64) -> DatabaseView {
        self.retaining(id_differs(id))
    }

    /// The dataset without any stroke on board `board_id`.
    pub open spec fn without_strokes_on(self, board_id: u64) -> DatabaseView {
        self.retaining(off_board(board_id))
    }

    /// What an owner-only delete of stroke `id` by `sender` answers.
    pub open spec fn delete_verdict(self, sender: Seq<char>, id: u64) -> DeleteOutcome {
        if !self.has_stroke(id) {
            DeleteOutcome::NotFound
        } else if self.stroke(id).user == sender {
            DeleteOutcome::Deleted
        } else {
            DeleteOutcome::Forbidden
        }
    }

    /// The dataset after an owner-only delete of stroke `id` by `sender`.
    pub open spec fn after_delete(self, sender: Seq<char>, id: u64) -> DatabaseView {
        if self.delete_verdict(sender, id) == DeleteOutcome::Deleted {
            self.without_stroke(id)
        } else {
            self
        }
    }

    /// The dataset after an unrestricted delete of stroke `id`.
    pub open spec fn after_delete_anyone(self, id: u64) -> DatabaseView {
        if self.has_stroke(id) {
            self.without_stroke(id)
        } else {
            self
        }
    }

    /// The dataset after a board named `name` was asked to be inserted.
    pub open spec fn after_create(self, name: Seq<char>) -> DatabaseView {
        if self.last_board_id < u64::MAX {
            self.with_board(name)
        } else {
            self
        }
    }

    /// The dataset after the stroke `row` was asked to be inserted.
    pub open spec fn after_add(self, row: StrokeView) -> DatabaseView {
        if self.last_stroke_id < u64::MAX {
            self.with_stroke(row)
        } else {
            self
        }
    }

    /// The dataset after one call.
    pub open spec fn after_call(self, call: Call) -> DatabaseView {
        match call {
            Call::CreateBoard { name } => self.after_create(name),
            Call::AddStroke { row } => self.after_add(row),
            Call::DeleteStroke { sender, stroke_id } => self.after_delete(sender, stroke_id),
            Call::DeleteStrokeAnyone { stroke_id } => self.after_delete_anyone(stroke_id),
            Call::ClearBoard { board_id } => self.after_clear(board_id),
        }
    }

    /// The dataset after the first `n` of `calls`, made one after the other.
    pub open spec fn after_calls(self, calls: Seq<Call>, n: nat) -> DatabaseView
        recommends
            n <= calls.len(),
        decreases n,
    {
        if n == 0 {
            self
        } else {
            self.after_calls(calls, (n - 1) as nat).after_call(calls[n - 1])
        }
    }

    /// The board id that the call `calls[i]` hands out, if it hands one out.
    pub open spec fn board_id_from(self, calls: Seq<Call>, i: nat) -> Option<u64>
        recommends
            i < calls.len(),
    {
        let before = self.after_calls(calls, i);
        if calls[i as int] is CreateBoard && before.last_board_id < u64::MAX {
            Some((before.last_board_id + 1) as u64)
        } else {
            None
        }
    }

    /// The stroke id that the call `calls[i]` hands out, if it hands one out.
    pub open spec fn stroke_id_from(self, calls: Seq<Call>, i: nat) -> Option<u64>
        recommends
            i < calls.len(),
    {
        let before = self.after_calls(calls, i);
        if calls[i as int] is AddStroke && before.last_stroke_id < u64::MAX {
            Some((before.last_stroke_id + 1) as u64)
        } else {
            None
        }
    }

    /// The dataset after board `board_id` was asked to be cleared.
    pub open spec fn after_clear(self, board_id: u64) -> DatabaseView {
        if self.has_board(board_id) {
            self.without_strokes_on(board_id)
        } else {
            self
        }
    }
}

impl DatabaseView {
    /// In a well-formed dataset the row at index `i` is the row its id names.
    pub proof fn lemma_stroke_at(self, i: int)
        requires
            self.wf(),
            0 <= i < self.strokes.len(),
        ensures
            self.has_stroke(self.strokes[i].id),
            self.stroke(self.strokes[i].id) == self.strokes[i],
    {
        let id = self.strokes[i].id;
        let j = choose|j: int| 0 <= j < self.strokes.len() && (#[trigger] self.strokes[j]).id == id;
        if j < i {
            assert(self.strokes[j].id < self.strokes[i].id);
        } else if i < j {
            assert(self.strokes[i].id < self.strokes[j].id);
        }
    }

    /// In a well-formed dataset the row at index `i` is the row its id names.
    pub proof fn lemma_board_at(self, i: int)
        requires
            self.wf(),
            0 <= i < self.boards.len(),
        ensures
            self.has_board(self.boards[i].id),
            self.board(self.boards[i].id) == self.boards[i],
    {
        let id = self.boards[i].id;
        let j = choose|j: int| 0 <= j < self.boards.len() && (#[trigger] self.boards[j]).id == id;
        if j < i {
            assert(self.boards[j].id < self.boards[i].id);
        } else if i < j {
            assert(self.boards[i].id < self.boards[j].id);
        }
    }
}

impl DatabaseView {
    /// Dropping strokes leaves a well-formed dataset well formed.
    pub proof fn lemma_retaining_wf(self, keep: spec_fn(StrokeView) -> bool)
        requires
            self.wf(),
        ensures
            self.retaining(keep).wf(),
    {
        let f = self.strokes.filter(keep);
        lemma_filter_ascending(self.strokes, keep);
        lemma_filter_members(self.strokes, keep);
        assert forall|i: int| 0 <= i < f.len() implies 1 <= (#[trigger] f[i]).id
            <= self.last_stroke_id by {
            assert(f.contains(f[i]));
            let m = choose|m: int| 0 <= m < self.strokes.len() && self.strokes[m] == f[i];
            assert(1 <= self.strokes[m].id <= self.last_stroke_id);
        }
    }

    /// Which ids a dataset still holds after strokes were dropped, and that
    /// each of them still names the row it named.
    pub proof fn lemma_retaining_rows(self, keep: spec_fn(StrokeView) -> bool, id: u64)
        requires
            self.wf(),
        ensures
            self.retaining(keep).has_stroke(id) <==> self.has_stroke(id) && keep(self.stroke(id)),
            self.retaining(keep).has_stroke(id) ==> self.retaining(keep).stroke(id)
                == self.stroke(id),
    {
        let f = self.strokes.filter(keep);
        let w = self.retaining(keep);
        self.lemma_retaining_wf(keep);
        lemma_filter_members(self.strokes, keep);
        if w.has_stroke(id) {
            let j = choose|j: int| 0 <= j < f.len() && (#[trigger] f[j]).id == id;
            w.lemma_stroke_at(j);
            assert(f.contains(f[j]));
            let m = choose|m: int| 0 <= m < self.strokes.len() && self.strokes[m] == f[j];
            self.lemma_stroke_at(m);
            assert(w.stroke(id) == f[j]);
            assert(self.stroke(id) == f[j]);
            assert(keep(f[j]));
        }
        if self.has_stroke(id) && keep(self.stroke(id)) {
            let m = choose|m: int|
                0 <= m < self.strokes.len() && (#[trigger] self.strokes[m]).id == id;
            self.lemma_stroke_at(m);
            assert(self.strokes.contains(self.strokes[m]));
            assert(f.contains(self.strokes[m]));
            let j = choose|j: int| 0 <= j < f.len() && f[j] == self.strokes[m];
            assert(w.strokes[j].id == id);
            assert(w.has_stroke(id));
        }
    }
}

/// A filter that every row passes changes nothing.
pub proof fn lemma_filter_all(s: Seq<StrokeView>, keep: spec_fn(StrokeView) -> bool)
    requires
        forall|i: int| 0 <= i < s.len() ==> keep(#[trigger] s[i]),
    ensures
        s.filter(keep) == s,
    decreases s.len(),
{
    reveal(Seq::filter);
    if s.len() > 0 {
        lemma_filter_all(s.drop_last(), keep);
        assert(s.drop_last().push(s.last()) =~= s);
    }
}

/// A filter keeps exactly the rows of the table that pass it.
pub proof fn lemma_filter_members(s: Seq<StrokeView>, keep: spec_fn(StrokeView) -> bool)
    ensures
        forall|x: StrokeView| #[trigger] s.filter(keep).contains(x) <==> s.contains(x) && keep(x),
    decreases s.len(),
{
    reveal(Seq::filter);
    if s.len() > 0 {
        let init = s.drop_last();
        let last = s.last();
        let f = init.filter(keep);
        lemma_filter_members(init, keep);
        assert forall|x: StrokeView| #[trigger]
            s.filter(keep).contains(x) <==> s.contains(x) && keep(x) by {
            if init.contains(x) {
                let j = choose|j: int| 0 <= j < init.len() && init[j] == x;
                assert(s[j] == x);
            }
            if s.contains(x) {
                let j = choose|j: int| 0 <= j < s.len() && s[j] == x;
                if j < s.len() - 1 {
                    assert(init[j] == x);
                }
            }
            assert(s[s.len() - 1] == last);
            if keep(last) {
                let g = f.push(last);
                if g.contains(x) {
                    let j = choose|j: int| 0 <= j < g.len() && g[j] == x;
                    if j < f.len() {
                        assert(f[j] == x);
                    }
                }
                if f.contains(x) {
                    let j = choose|j: int| 0 <= j < f.len() && f[j] == x;
                    assert(g[j] == x);
                }
                assert(g[f.len() as int] == last);
            }
        }
    }
}

/// A filter keeps ids in ascending order.
pub proof fn lemma_filter_ascending(s: Seq<StrokeView>, keep: spec_fn(StrokeView) -> bool)
    requires
        forall|i: int, j: int| 0 <= i < j < s.len() ==> s[i].id < s[j].id,
    ensures
        forall|i: int, j: int|
            0 <= i < j < s.filter(keep).len() ==> s.filter(keep)[i].id < s.filter(keep)[j].id,
    decreases s.len(),
{
    reveal(Seq::filter);
    if s.len() > 0 {
        let init = s.drop_last();
        let f = init.filter(keep);
        assert forall|i: int, j: int| 0 <= i < j < init.len() implies init[i].id
            < init[j].id by {
            assert(init[i] == s[i] && init[j] == s[j]);
        }
        lemma_filter_ascending(init, keep);
        lemma_filter_members(init, keep);
        if keep(s.last()) {
            let g = f.push(s.last());
            assert forall|i: int, j: int| 0 <= i < j < g.len() implies g[i].id < g[j].id by {
                if j == f.len() {
                    assert(f.contains(f[i]));
                    let m = choose|m: int| 0 <= m < init.len() && init[m] == f[i];
                    assert(s[m] == f[i]);
                    assert(s[m].id < s[s.len() - 1].id);
                } else {
                    assert(g[i] == f[i] && g[j] == f[j]);
                }
            }
        }
    }
}

/// Filtering one row further: the last row is kept or dropped on its own.
pub proof fn lemma_filter_step(s: Seq<StrokeView>, keep: spec_fn(StrokeView) -> bool, k: int)
    requires
        0 <= k < s.len(),
    ensures
        s.subrange(0, k + 1).filter(keep) == if keep(s[k]) {
            s.subrange(0, k).filter(keep).push(s[k])
        } else {
            s.subrange(0, k).filter(keep)
        },
{
    reveal(Seq::filter);
    assert(s.subrange(0, k + 1).drop_last() =~= s.subrange(0, k));
}

/// Where ids are distinct, dropping the row at `i` is filtering out its id.
pub proof fn lemma_remove_is_filter(s: Seq<StrokeView>, i: int)
    requires
        0 <= i < s.len(),
        forall|a: int, b: int| 0 <= a < b < s.len() ==> s[a].id != s[b].id,
    ensures
        s.remove(i) == s.filter(id_differs(s[i].id)),
{
    let keep = id_differs(s[i].id);
    let head = s.subrange(0, i);
    let tail = s.subrange(i + 1, s.len() as int);
    let one = seq![s[i]];
    assert forall|a: int| 0 <= a < head.len() implies keep(#[trigger] head[a]) by {
        assert(head[a] == s[a]);
    }
    assert forall|a: int| 0 <= a < tail.len() implies keep(#[trigger] tail[a]) by {
        assert(tail[a] == s[i + 1 + a]);
    }
    lemma_filter_all(head, keep);
    lemma_filter_all(tail, keep);
    assert(one.filter(keep) =~= Seq::<StrokeView>::empty()) by {
        reveal_with_fuel(Seq::filter, 2);
        assert(one.last() == s[i]);
        assert(one.drop_last().len() == 0);
    }
    assert(s =~= head + one + tail);
    Seq::filter_distributes_over_add(head + one, tail, keep);
    Seq::filter_distributes_over_add(head, one, keep);
    assert(s.remove(i) =~= head + tail);
}

} // verus!
