//! The lines of all rows of the board, and the heuristic values they give to the cells.
//!
//! Every empty cell has a value: 1 for the centre cell, plus, for every line that has an open
//! end at the cell, the square of its length (twice that when the line is open at both ends).
//! The one exception comes from closing a line open at both ends at its `p2` end: the value
//! taken off for it lands on the stone's own cell, so the line's other end keeps an excess of
//! the square of its length (at most one such excess per direction and cell).
pub mod line_row;

use vstd::prelude::*;

use crate::geometry::{
    at, board_ok, color, empty_board, lemma_at_put, lemma_no_four_put, no_four, play, put, row_count,
    row_of, wins_at, wins_by,
};
use crate::lines::line_row::{
    change_sum, changes_small, has_one_owner, lemma_change_sum_append, lemma_change_sum_push,
    lemma_no_one_owner, lemma_one_owner_persists, lemma_row_good_frame,
    lemma_row_sum_bound, lemma_row_sum_other_row, lemma_step_no_win, lemma_step_post_parts, line_ok, row_good, row_sum,
    step_post, step_pre, values_step, cell_step, lemma_row_good_empty, row_step, lemma_row_step_sound, Line, LineRow, RowStep,
};
use crate::{BoardPos, CELLS, HEIGHT, WIDTH};

verus! {

/// What `update_move` changed, so that `redo_changes` can take it back: the four rows
/// through the stone as they were, the value changes of the cells, and the board before the
/// stone.
pub struct Changes {
    pub old_lines: [(usize, LineRow); 4],
    pub value_changes: Vec<(usize, i16)>,
    pub old_board: Ghost<Seq<u8>>,
}

/// The outcome of putting a stone into the lines.
pub enum UpdateResult {
    Continue(Changes),
    Win(Changes),
}

/// The lines of every row of the four directions, and the value of every cell, for the
/// board `board`.
pub struct Lines {
    pub lr: Vec<LineRow>,
    pub ud: Vec<LineRow>,
    pub lu_rd: Vec<LineRow>,
    pub ru_ld: Vec<LineRow>,
    pub values: [i16; 16],
    pub board: Ghost<Seq<u8>>,
}

/// The value of an empty cell that no line ends at: 1 for the centre cell.
pub open spec fn base_value(w: int, h: int) -> int {
    if w == WIDTH / 2 && h == HEIGHT / 2 {
        1
    } else {
        0
    }
}

/// The sum of the excess values of a cell over the four directions.
pub open spec fn excess_sum(e: spec_fn(int, int, int) -> int, w: int, h: int) -> int {
    e(0, w, h) + e(1, w, h) + e(2, w, h) + e(3, w, h)
}

/// The cell index of `(w, h)`.
pub open spec fn cell(w: int, h: int) -> int {
    w * 4 + h
}

impl Lines {
    /// The rows of direction `f`.
    pub open spec fn rows(self, f: int) -> Seq<LineRow> {
        if f == 0 {
            self.lr@
        } else if f == 1 {
            self.ud@
        } else if f == 2 {
            self.lu_rd@
        } else {
            self.ru_ld@
        }
    }

    /// The lines of row `r` of direction `f`.
    pub open spec fn row(self, f: int, r: int) -> Seq<Line> {
        self.rows(f)[r].lines@
    }

    /// Every direction has its number of rows.
    pub open spec fn shape_ok(self) -> bool {
        &&& self.lr@.len() == 4
        &&& self.ud@.len() == 4
        &&& self.lu_rd@.len() == 7
        &&& self.ru_ld@.len() == 7
    }

    /// What the lines of the four rows through `(w, h)` add to its value.
    pub open spec fn lines_sum(self, w: int, h: int) -> int {
        row_sum(self.row(0, row_of(0, w, h)), w, h) + row_sum(self.row(1, row_of(1, w, h)), w, h)
            + row_sum(self.row(2, row_of(2, w, h)), w, h) + row_sum(self.row(3, row_of(3, w, h)), w, h)
    }

    /// The excess values `e` are small, and only a cell that is the open end of a line open
    /// at that end only has one.
    pub open spec fn excess_ok(self, b: Seq<u8>, e: spec_fn(int, int, int) -> int) -> bool {
        forall|f: int, w: int, h: int|
            0 <= f < 4 && 0 <= w < 4 && 0 <= h < 4 ==> 0 <= #[trigger] e(f, w, h) <= 9 && (e(f, w, h)
                > 0 && at(b, w, h) == 0 ==> has_one_owner(self.row(f, row_of(f, w, h)), w, h))
    }

    /// The value of cell `(w, h)`: the model for an empty cell, a small non-positive rest for
    /// an occupied one.
    pub open spec fn value_ok(self, b: Seq<u8>, e: spec_fn(int, int, int) -> int, w: int, h: int) -> bool {
        if at(b, w, h) == 0 {
            self.values@[cell(w, h)] == base_value(w, h) + self.lines_sum(w, h) + excess_sum(e, w, h)
        } else {
            -36 <= self.values@[cell(w, h)] <= 0
        }
    }

    /// The lines and values describe board `b`.
    #[verifier::opaque]
    pub open spec fn wf(self, b: Seq<u8>) -> bool {
        &&& board_ok(b)
        &&& no_four(b)
        &&& self.shape_ok()
        &&& forall|f: int, r: int| 0 <= f < 4 && 0 <= r < row_count(f) ==> #[trigger] row_good(b, f, r, self.row(f, r))
        &&& exists|e: spec_fn(int, int, int) -> int|
            self.excess_ok(b, e) && forall|w: int, h: int|
                0 <= w < 4 && 0 <= h < 4 ==> #[trigger] self.value_ok(b, e, w, h)
    }

    /// Every value is small.
    pub open spec fn values_bounded(self) -> bool {
        forall|k: int| 0 <= k < 16 ==> -200 <= #[trigger] self.values@[k] <= 400
    }

    /// `self` holds the same lines and values as `other`, for the same board.
    pub open spec fn same_as(self, other: Lines) -> bool {
        &&& self.board@ == other.board@
        &&& self.lr@.len() == other.lr@.len()
        &&& self.ud@.len() == other.ud@.len()
        &&& self.lu_rd@.len() == other.lu_rd@.len()
        &&& self.ru_ld@.len() == other.ru_ld@.len()
        &&& forall|f: int, r: int|
            0 <= f < 4 && 0 <= r < self.rows(f).len() ==> #[trigger] self.row(f, r) == other.row(f, r)
        &&& self.values@ == other.values@
    }
}

/// Every change aims at a cell and stays small, and there are few of them.
pub open spec fn changes_bounded(d: Seq<(usize, i16)>) -> bool {
    &&& d.len() <= 17
    &&& forall|i: int| 0 <= i < d.len() ==> (#[trigger] d[i]).0 < 16 && -200 <= d[i].1 <= 200
}

/// What `update_move` did to the lines: only the four rows through `pos` changed, `ch`
/// holds them as they were, and the values changed by `ch.value_changes`.
pub open spec fn update_frame(l0: Lines, l1: Lines, ch: Changes, pos: BoardPos) -> bool {
    &&& ch.old_board@ == l0.board@
    &&& l1.shape_ok() == l0.shape_ok()
    &&& l0.shape_ok()
    &&& forall|f: int|
        0 <= f < 4 ==> (#[trigger] ch.old_lines@[f]).0 == row_of(f, pos.w as int, pos.h as int)
            && ch.old_lines@[f].1.lines@ == l0.row(f, row_of(f, pos.w as int, pos.h as int))
    &&& forall|f: int, r: int|
        0 <= f < 4 && 0 <= r < row_count(f) && r != row_of(f, pos.w as int, pos.h as int)
            ==> #[trigger] l1.row(f, r) == l0.row(f, r)
    &&& forall|k: int|
        0 <= k < 16 ==> #[trigger] l1.values@[k] == l0.values@[k] + change_sum(ch.value_changes@, k)
    &&& changes_bounded(ch.value_changes@)
    &&& l1.values_bounded()
}

/// What `redo_changes` did: the rows recorded in `ch` are back, the other rows are as they
/// were, and the value changes are taken back.
pub open spec fn redo_frame(l1: Lines, ch: Changes, l2: Lines) -> bool {
    &&& l2.board@ == ch.old_board@
    &&& l2.lr@.len() == l1.lr@.len()
    &&& l2.ud@.len() == l1.ud@.len()
    &&& l2.lu_rd@.len() == l1.lu_rd@.len()
    &&& l2.ru_ld@.len() == l1.ru_ld@.len()
    &&& forall|f: int| 0 <= f < 4 ==> l2.row(f, (#[trigger] ch.old_lines@[f]).0 as int) == ch.old_lines@[f].1.lines@
    &&& forall|f: int, r: int|
        0 <= f < 4 && 0 <= r < l1.rows(f).len() && r != ch.old_lines@[f].0 ==> #[trigger] l2.row(f, r)
            == l1.row(f, r)
    &&& forall|k: int| 0 <= k < 16 ==> #[trigger] l2.values@[k] == l1.values@[k] - change_sum(ch.value_changes@, k)
}

/// Undoing a move: `redo_changes` with the changes that `update_move` returned gives back
/// the lines and values as they were before the move.
pub proof fn lemma_redo_undoes_update(l0: Lines, l1: Lines, l2: Lines, ch: Changes, pos: BoardPos)
    requires
        update_frame(l0, l1, ch, pos),
        redo_frame(l1, ch, l2),
    ensures
        l2.same_as(l0),
{
    assert forall|f: int, r: int| 0 <= f < 4 && 0 <= r < l2.rows(f).len() implies #[trigger] l2.row(f, r)
        == l0.row(f, r) by {
        assert(ch.old_lines@[f].0 == row_of(f, pos.w as int, pos.h as int));
        if r == row_of(f, pos.w as int, pos.h as int) {
        } else {
            assert(l1.row(f, r) == l0.row(f, r));
        }
    }
    assert(l2.values@ =~= l0.values@);
}

/// The lines describing a board give each row its step precondition.
pub proof fn lemma_wf_step_pre(l: Lines, b: Seq<u8>, pos: BoardPos, f: int)
    requires
        l.wf(b),
        pos.on_board(),
        at(b, pos.w as int, pos.h as int) == 0,
        0 <= f < 4,
    ensures
        step_pre(b, f, pos, l.row(f, row_of(f, pos.w as int, pos.h as int))),
        0 <= row_of(f, pos.w as int, pos.h as int) < row_count(f),
        l.shape_ok(),
        board_ok(b),
{
    reveal(Lines::wf);
    reveal(step_pre);
    assert(row_good(b, f, row_of(f, pos.w as int, pos.h as int), l.row(f, row_of(f, pos.w as int, pos.h as int))));
}

/// The values of lines that describe a board are small; those of empty cells lie in
/// `0 ..= 181`.
pub proof fn lemma_wf_bounded(l: Lines, b: Seq<u8>)
    requires
        l.wf(b),
    ensures
        l.values_bounded(),
        forall|w: int, h: int|
            0 <= w < 4 && 0 <= h < 4 && at(b, w, h) == 0 ==> 0 <= #[trigger] l.values@[cell(w, h)] <= 181,
{
    reveal(Lines::wf);
    let e = choose|e: spec_fn(int, int, int) -> int|
        l.excess_ok(b, e) && forall|w: int, h: int| 0 <= w < 4 && 0 <= h < 4 ==> #[trigger] l.value_ok(b, e, w, h);
    assert forall|w: int, h: int|
        0 <= w < 4 && 0 <= h < 4 && at(b, w, h) == 0 implies 0 <= #[trigger] l.values@[cell(w, h)] <= 181 by {
        assert(l.value_ok(b, e, w, h));
        assert(e(0, w, h) <= 9 && e(1, w, h) <= 9 && e(2, w, h) <= 9 && e(3, w, h) <= 9);
        assert(e(0, w, h) >= 0 && e(1, w, h) >= 0 && e(2, w, h) >= 0 && e(3, w, h) >= 0);
        assert forall|f: int| 0 <= f < 4 implies 0 <= #[trigger] row_sum(l.row(f, row_of(f, w, h)), w, h) <= 36 by {
            assert(row_good(b, f, row_of(f, w, h), l.row(f, row_of(f, w, h))));
            lemma_row_sum_bound(b, f, row_of(f, w, h), l.row(f, row_of(f, w, h)), w, h);
        }
        assert(0 <= row_sum(l.row(0, row_of(0, w, h)), w, h) <= 36);
        assert(0 <= row_sum(l.row(1, row_of(1, w, h)), w, h) <= 36);
        assert(0 <= row_sum(l.row(2, row_of(2, w, h)), w, h) <= 36);
        assert(0 <= row_sum(l.row(3, row_of(3, w, h)), w, h) <= 36);
    }
    assert forall|k: int| 0 <= k < 16 implies -200 <= #[trigger] l.values@[k] <= 400 by {
        let w = k / 4;
        let h = k % 4;
        assert(k == cell(w, h));
        assert(l.value_ok(b, e, w, h));
    }
}

/// One direction's part of a move: its row through `pos` went from `l0`'s to `l1`'s, with
/// value changes `e` and excess `z` at `(qw, qh)`.
pub open spec fn fam_ok(
    l0: Lines,
    l1: Lines,
    b: Seq<u8>,
    pos: BoardPos,
    sign: bool,
    f: int,
    e: Seq<(usize, i16)>,
    qw: int,
    qh: int,
    z: int,
) -> bool {
    let r = row_of(f, pos.w as int, pos.h as int);
    &&& row_good(put(b, pos.w as int, pos.h as int, color(sign)), f, r, l1.row(f, r))
    &&& e.len() <= 4
    &&& changes_small(e)
    &&& values_step(b, pos, l0.row(f, r), l1.row(f, r), e, qw, qh, z)
}

/// The rows of direction `f` other than the one through `pos` are the same in `l0` and `l1`.
pub open spec fn other_rows_same(l0: Lines, l1: Lines, pos: BoardPos, f: int) -> bool {
    &&& l1.rows(f).len() == l0.rows(f).len()
    &&& forall|r: int|
        0 <= r < row_count(f) && r != row_of(f, pos.w as int, pos.h as int) ==> #[trigger] l1.row(f, r)
            == l0.row(f, r)
}

/// One direction's value change of an empty cell other than `pos`.
proof fn lemma_fam_cell(
    l0: Lines,
    l1: Lines,
    b: Seq<u8>,
    pos: BoardPos,
    sign: bool,
    f: int,
    e: Seq<(usize, i16)>,
    qw: int,
    qh: int,
    z: int,
    w: int,
    h: int,
)
    requires
        l0.wf(b),
        pos.on_board(),
        at(b, pos.w as int, pos.h as int) == 0,
        0 <= f < 4,
        fam_ok(l0, l1, b, pos, sign, f, e, qw, qh, z),
        other_rows_same(l0, l1, pos, f),
        0 <= w < 4,
        0 <= h < 4,
    ensures
        !(w == pos.w && h == pos.h) && at(b, w, h) == 0 ==> change_sum(e, cell(w, h)) == row_sum(l1.row(f, row_of(f, w, h)), w, h)
            - row_sum(l0.row(f, row_of(f, w, h)), w, h) + if w == qw && h == qh {
            z
        } else {
            0
        },
        !(w == pos.w && h == pos.h) && at(b, w, h) != 0 ==> change_sum(e, cell(w, h)) == 0,
        -9 <= change_sum(e, cell(pos.w as int, pos.h as int)) <= 0,
{
    reveal(Lines::wf);
    let r = row_of(f, pos.w as int, pos.h as int);
    let s = l0.row(f, r);
    let s2 = l1.row(f, r);
    let c = color(sign);
    assert(cell_step(b, pos, s, s2, e, qw, qh, z, w, h));
    if row_of(f, w, h) != r && at(b, w, h) == 0 {
        assert(0 <= row_of(f, w, h) < row_count(f));
        assert(row_good(b, f, r, s));
        lemma_row_sum_other_row(b, f, r, s, w, h);
        lemma_row_sum_other_row(put(b, pos.w as int, pos.h as int, c), f, r, s2, w, h);
        if z != 0 && w == qw && h == qh {
            let m = choose|m: Line| s.contains(m) && m.both() && m.p1.w == qw && m.p1.h == qh;
            lemma_row_good_line_ok(b, f, r, s, m);
        }
    }
}

/// A line of a correct row is correct.
pub proof fn lemma_row_good_line_ok(b: Seq<u8>, f: int, r: int, s: Seq<Line>, x: Line)
    requires
        row_good(b, f, r, s),
        s.contains(x),
    ensures
        line_ok(b, f, r, x),
{
    reveal(row_good);
}

/// The excess value a direction adds to a cell in a move.
pub open spec fn added_excess(t: (Seq<(usize, i16)>, int, int, int), w: int, h: int) -> int {
    if w == t.1 && h == t.2 {
        t.3
    } else {
        0
    }
}

/// The excess values after a move.
pub open spec fn next_excess(
    eo: spec_fn(int, int, int) -> int,
    t0: (Seq<(usize, i16)>, int, int, int),
    t1: (Seq<(usize, i16)>, int, int, int),
    t2: (Seq<(usize, i16)>, int, int, int),
    t3: (Seq<(usize, i16)>, int, int, int),
) -> spec_fn(int, int, int) -> int {
    |f: int, w: int, h: int|
        eo(f, w, h) + if f == 0 {
            added_excess(t0, w, h)
        } else if f == 1 {
            added_excess(t1, w, h)
        } else if f == 2 {
            added_excess(t2, w, h)
        } else {
            added_excess(t3, w, h)
        }
}

/// One direction's excess value of a cell after a move stays small and keeps its owner.
proof fn lemma_update_excess_at(
    l0: Lines,
    l1: Lines,
    b: Seq<u8>,
    pos: BoardPos,
    sign: bool,
    f: int,
    eo: spec_fn(int, int, int) -> int,
    t: (Seq<(usize, i16)>, int, int, int),
    w: int,
    h: int,
)
    requires
        l0.wf(b),
        l0.excess_ok(b, eo),
        pos.on_board(),
        at(b, pos.w as int, pos.h as int) == 0,
        0 <= f < 4,
        fam_ok(l0, l1, b, pos, sign, f, t.0, t.1, t.2, t.3),
        other_rows_same(l0, l1, pos, f),
        0 <= w < 4,
        0 <= h < 4,
    ensures
        ({
            let en = eo(f, w, h) + added_excess(t, w, h);
            let b2 = put(b, pos.w as int, pos.h as int, color(sign));
            &&& 0 <= en <= 9
            &&& en > 0 && at(b2, w, h) == 0 ==> has_one_owner(l1.row(f, row_of(f, w, h)), w, h)
        }),
{
    reveal(Lines::wf);
    let r = row_of(f, pos.w as int, pos.h as int);
    let s = l0.row(f, r);
    let s2 = l1.row(f, r);
    let c = color(sign);
    let b2 = put(b, pos.w as int, pos.h as int, c);
    lemma_at_put(b, pos.w as int, pos.h as int, c, w, h);
    assert(row_good(b, f, r, s));
    assert(0 <= eo(f, w, h) <= 9);
    if t.3 != 0 && w == t.1 && h == t.2 {
        let m = choose|m: Line| s.contains(m) && m.both() && m.p1.w == t.1 && m.p1.h == t.2;
        lemma_row_good_line_ok(b, f, r, s, m);
        assert(row_of(f, w, h) == r);
        lemma_no_one_owner(b, f, r, s, w, h);
        assert(eo(f, w, h) == 0);
        let y = choose|y: Line| s2.contains(y) && !y.both() && y.p1.w == t.1 && y.p1.h == t.2;
        assert(has_one_owner(s2, w, h));
    } else {
        if eo(f, w, h) > 0 && at(b2, w, h) == 0 {
            assert(at(b, w, h) == 0);
            assert(has_one_owner(l0.row(f, row_of(f, w, h)), w, h));
            if row_of(f, w, h) == r {
                lemma_wf_step_pre(l0, b, pos, f);
                lemma_one_owner_persists(b, f, pos, sign, s, s2, w, h);
            } else {
                assert(0 <= row_of(f, w, h) < row_count(f));
            }
        }
    }
}

/// After the four row steps of a move without a win and the value update, the lines describe
/// the new board.
#[verifier::rlimit(100)]
#[verifier::spinoff_prover]
pub proof fn lemma_update_wf(
    l0: Lines,
    l1: Lines,
    b: Seq<u8>,
    pos: BoardPos,
    sign: bool,
    t0: (Seq<(usize, i16)>, int, int, int),
    t1: (Seq<(usize, i16)>, int, int, int),
    t2: (Seq<(usize, i16)>, int, int, int),
    t3: (Seq<(usize, i16)>, int, int, int),
    d: Seq<(usize, i16)>,
)
    requires
        l0.wf(b),
        pos.on_board(),
        at(b, pos.w as int, pos.h as int) == 0,
        l1.shape_ok(),
        fam_ok(l0, l1, b, pos, sign, 0, t0.0, t0.1, t0.2, t0.3),
        fam_ok(l0, l1, b, pos, sign, 1, t1.0, t1.1, t1.2, t1.3),
        fam_ok(l0, l1, b, pos, sign, 2, t2.0, t2.1, t2.2, t2.3),
        fam_ok(l0, l1, b, pos, sign, 3, t3.0, t3.1, t3.2, t3.3),
        other_rows_same(l0, l1, pos, 0),
        other_rows_same(l0, l1, pos, 1),
        other_rows_same(l0, l1, pos, 2),
        other_rows_same(l0, l1, pos, 3),
        !wins_at(put(b, pos.w as int, pos.h as int, color(sign)), pos.w as int, pos.h as int, color(sign)),
        d == t0.0 + t1.0 + t2.0 + t3.0 + seq![(pos.index() as usize, (-l0.values@[pos.index()]) as i16)],
        forall|k: int| 0 <= k < 16 ==> #[trigger] l1.values@[k] == l0.values@[k] + change_sum(d, k),
    ensures
        l1.wf(put(b, pos.w as int, pos.h as int, color(sign))),
{
    reveal(Lines::wf);
    let c = color(sign);
    let w0 = pos.w as int;
    let h0 = pos.h as int;
    let b2 = put(b, w0, h0, c);
    let pk = cell(w0, h0);
    assert(pos.index() == pk);
    assert(board_ok(b2)) by {
        assert forall|i: int| 0 <= i < 16 implies #[trigger] b2[i] <= 2 by {}
    }
    lemma_no_four_put(b, w0, h0, c);
    assert forall|f: int, r: int| 0 <= f < 4 && 0 <= r < row_count(f) implies #[trigger] row_good(b2, f, r, l1.row(f, r)) by {
        if r != row_of(f, w0, h0) {
            assert(row_good(b, f, r, l0.row(f, r)));
            lemma_row_good_frame(b, f, r, l0.row(f, r), pos, c);
        }
    }
    let eo = choose|e: spec_fn(int, int, int) -> int|
        l0.excess_ok(b, e) && forall|w: int, h: int| 0 <= w < 4 && 0 <= h < 4 ==> #[trigger] l0.value_ok(b, e, w, h);
    let en = next_excess(eo, t0, t1, t2, t3);
    assert forall|f: int, w: int, h: int| 0 <= f < 4 && 0 <= w < 4 && 0 <= h < 4 implies 0 <= #[trigger] en(f, w, h) <= 9
        && (en(f, w, h) > 0 && at(b2, w, h) == 0 ==> has_one_owner(l1.row(f, row_of(f, w, h)), w, h)) by {
        if f == 0 {
            lemma_update_excess_at(l0, l1, b, pos, sign, 0, eo, t0, w, h);
        } else if f == 1 {
            lemma_update_excess_at(l0, l1, b, pos, sign, 1, eo, t1, w, h);
        } else if f == 2 {
            lemma_update_excess_at(l0, l1, b, pos, sign, 2, eo, t2, w, h);
        } else {
            lemma_update_excess_at(l0, l1, b, pos, sign, 3, eo, t3, w, h);
        }
    }
    assert(l1.excess_ok(b2, en));
    assert forall|w: int, h: int| 0 <= w < 4 && 0 <= h < 4 implies #[trigger] l1.value_ok(b2, en, w, h) by {
        lemma_update_value_at(l0, l1, b, pos, sign, t0, t1, t2, t3, d, eo, w, h);
    }
}

/// One cell's value after the four row steps of a move without a win and the value update.
#[verifier::rlimit(100)]
#[verifier::spinoff_prover]
proof fn lemma_update_value_at(
    l0: Lines,
    l1: Lines,
    b: Seq<u8>,
    pos: BoardPos,
    sign: bool,
    t0: (Seq<(usize, i16)>, int, int, int),
    t1: (Seq<(usize, i16)>, int, int, int),
    t2: (Seq<(usize, i16)>, int, int, int),
    t3: (Seq<(usize, i16)>, int, int, int),
    d: Seq<(usize, i16)>,
    eo: spec_fn(int, int, int) -> int,
    w: int,
    h: int,
)
    requires
        l0.wf(b),
        l0.excess_ok(b, eo),
        forall|w: int, h: int| 0 <= w < 4 && 0 <= h < 4 ==> #[trigger] l0.value_ok(b, eo, w, h),
        pos.on_board(),
        at(b, pos.w as int, pos.h as int) == 0,
        fam_ok(l0, l1, b, pos, sign, 0, t0.0, t0.1, t0.2, t0.3),
        fam_ok(l0, l1, b, pos, sign, 1, t1.0, t1.1, t1.2, t1.3),
        fam_ok(l0, l1, b, pos, sign, 2, t2.0, t2.1, t2.2, t2.3),
        fam_ok(l0, l1, b, pos, sign, 3, t3.0, t3.1, t3.2, t3.3),
        other_rows_same(l0, l1, pos, 0),
        other_rows_same(l0, l1, pos, 1),
        other_rows_same(l0, l1, pos, 2),
        other_rows_same(l0, l1, pos, 3),
        d == t0.0 + t1.0 + t2.0 + t3.0 + seq![(pos.index() as usize, (-l0.values@[pos.index()]) as i16)],
        forall|k: int| 0 <= k < 16 ==> #[trigger] l1.values@[k] == l0.values@[k] + change_sum(d, k),
        0 <= w < 4,
        0 <= h < 4,
    ensures
        l1.value_ok(put(b, pos.w as int, pos.h as int, color(sign)), next_excess(eo, t0, t1, t2, t3), w, h),
{
    let c = color(sign);
    let w0 = pos.w as int;
    let h0 = pos.h as int;
    let b2 = put(b, w0, h0, c);
    let pk = cell(w0, h0);
    let en = next_excess(eo, t0, t1, t2, t3);
    lemma_wf_board(l0, b);
    assert(pos.index() == pk);
    let d4 = t0.0 + t1.0 + t2.0 + t3.0;
    let last = (pos.index() as usize, (-l0.values@[pos.index()]) as i16);
    assert(d == d4.push(last));
    let k = cell(w, h);
    lemma_change_sum_push(d4, last, k);
    lemma_change_sum_append(t0.0 + t1.0 + t2.0, t3.0, k);
    lemma_change_sum_append(t0.0 + t1.0, t2.0, k);
    lemma_change_sum_append(t0.0, t1.0, k);
    lemma_fam_cell(l0, l1, b, pos, sign, 0, t0.0, t0.1, t0.2, t0.3, w, h);
    lemma_fam_cell(l0, l1, b, pos, sign, 1, t1.0, t1.1, t1.2, t1.3, w, h);
    lemma_fam_cell(l0, l1, b, pos, sign, 2, t2.0, t2.1, t2.2, t2.3, w, h);
    lemma_fam_cell(l0, l1, b, pos, sign, 3, t3.0, t3.1, t3.2, t3.3, w, h);
    lemma_at_put(b, w0, h0, c, w, h);
    assert(l0.value_ok(b, eo, w, h));
    if w == w0 && h == h0 {
        assert(-9 <= change_sum(t0.0, pk) <= 0);
        assert(l0.values@[pk] == base_value(w, h) + l0.lines_sum(w, h) + excess_sum(eo, w, h));
        assert(-32768 <= -l0.values@[pk] <= 32767) by {
            lemma_wf_bounded(l0, b);
        }
    }
}

/// Every change aims at a cell.
pub open spec fn aims_at_cells(d: Seq<(usize, i16)>) -> bool {
    forall|i: int| 0 <= i < d.len() ==> (#[trigger] d[i]).0 < 16
}

/// Adding the changes `d` one after the other to the values `v` keeps every value in the
/// range of `i16`.
pub open spec fn sums_fit(v: Seq<i16>, d: Seq<(usize, i16)>) -> bool {
    forall|i: int, k: int|
        0 <= i <= d.len() && 0 <= k < 16 ==> -32768 <= v[k] + #[trigger] change_sum(d.subrange(0, i), k) <= 32767
}

/// Taking the changes `d` off the values `v` one after the other keeps every value in the
/// range of `i16`.
pub open spec fn diffs_fit(v: Seq<i16>, d: Seq<(usize, i16)>) -> bool {
    forall|i: int, k: int|
        0 <= i <= d.len() && 0 <= k < 16 ==> -32768 <= v[k] - #[trigger] change_sum(d.subrange(0, i), k) <= 32767
}

/// Few small changes keep small values in range, added or taken off.
pub proof fn lemma_diffs_fit(v: Seq<i16>, d: Seq<(usize, i16)>)
    requires
        changes_bounded(d),
        forall|k: int| 0 <= k < 16 ==> -200 <= #[trigger] v[k] <= 400,
    ensures
        aims_at_cells(d),
        diffs_fit(v, d),
{
    assert forall|i: int, k: int| 0 <= i <= d.len() && 0 <= k < 16 implies -32768 <= v[k] - #[trigger] change_sum(
        d.subrange(0, i),
        k,
    ) <= 32767 by {
        let pre = d.subrange(0, i);
        assert forall|j: int| 0 <= j < pre.len() implies -200 <= (#[trigger] pre[j]).1 <= 200 by {
            assert(pre[j] == d[j]);
        }
        lemma_change_sum_bound(pre, k);
    }
}

/// Few small changes keep small values in range.
proof fn lemma_sums_fit(v: Seq<i16>, d: Seq<(usize, i16)>)
    requires
        changes_bounded(d),
        forall|k: int| 0 <= k < 16 ==> -200 <= #[trigger] v[k] <= 400,
    ensures
        aims_at_cells(d),
        sums_fit(v, d),
{
    assert forall|i: int, k: int| 0 <= i <= d.len() && 0 <= k < 16 implies -32768 <= v[k] + #[trigger] change_sum(
        d.subrange(0, i),
        k,
    ) <= 32767 by {
        let pre = d.subrange(0, i);
        assert forall|j: int| 0 <= j < pre.len() implies -200 <= (#[trigger] pre[j]).1 <= 200 by {
            assert(pre[j] == d[j]);
        }
        lemma_change_sum_bound(pre, k);
    }
}

/// A bound on the sum of the changes aimed at one cell.
proof fn lemma_change_sum_bound(d: Seq<(usize, i16)>, k: int)
    requires
        forall|i: int| 0 <= i < d.len() ==> -200 <= (#[trigger] d[i]).1 <= 200,
    ensures
        -200 * d.len() <= change_sum(d, k) <= 200 * d.len(),
    decreases d.len(),
{
    if d.len() > 0 {
        let t = d.drop_last();
        assert forall|i: int| 0 <= i < t.len() implies -200 <= (#[trigger] t[i]).1 <= 200 by {
            assert(t[i] == d[i]);
        }
        lemma_change_sum_bound(t, k);
        assert(d.last() == d[d.len() - 1]);
    }
}

/// The changes of a move without a win are bounded.
proof fn lemma_move_changes_bounded(
    e0: Seq<(usize, i16)>,
    e1: Seq<(usize, i16)>,
    e2: Seq<(usize, i16)>,
    e3: Seq<(usize, i16)>,
    last: (usize, i16),
)
    requires
        e0.len() <= 4 && changes_small(e0),
        e1.len() <= 4 && changes_small(e1),
        e2.len() <= 4 && changes_small(e2),
        e3.len() <= 4 && changes_small(e3),
        last.0 < 16,
        -200 <= last.1 <= 200,
    ensures
        changes_bounded(e0 + e1 + e2 + e3 + seq![last]),
{
    let d = e0 + e1 + e2 + e3 + seq![last];
    assert forall|i: int| 0 <= i < d.len() implies (#[trigger] d[i]).0 < 16 && -200 <= d[i].1 <= 200 by {
        if i < e0.len() {
            assert(d[i] == e0[i]);
        } else if i < e0.len() + e1.len() {
            assert(d[i] == e1[i - e0.len()]);
        } else if i < e0.len() + e1.len() + e2.len() {
            assert(d[i] == e2[i - e0.len() - e1.len()]);
        } else if i < e0.len() + e1.len() + e2.len() + e3.len() {
            assert(d[i] == e3[i - e0.len() - e1.len() - e2.len()]);
        } else {
            assert(d[i] == last);
        }
    }
}

/// The changes of one direction in a move: the changes, and the cell and size of an excess.
pub type DirChanges = (Seq<(usize, i16)>, int, int, int);

/// The four row steps of a move without a win, taken apart per direction.
proof fn lemma_move_steps(
    l0: Lines,
    l1: Lines,
    b: Seq<u8>,
    pos: BoardPos,
    sign: bool,
    d: Seq<(usize, i16)>,
    last: (usize, i16),
) -> (t: (DirChanges, DirChanges, DirChanges, DirChanges))
    requires
        l0.wf(b),
        pos.on_board(),
        at(b, pos.w as int, pos.h as int) == 0,
        last.0 < 16,
        -200 <= last.1 <= 200,
        exists|d1: Seq<(usize, i16)>, d2: Seq<(usize, i16)>, d3: Seq<(usize, i16)>|
            step_post(b, 0, pos, sign, l0.row(0, row_of(0, pos.w as int, pos.h as int)), l1.row(0, row_of(0, pos.w as int, pos.h as int)), Seq::empty(), d1, false)
            && step_post(b, 1, pos, sign, l0.row(1, row_of(1, pos.w as int, pos.h as int)), l1.row(1, row_of(1, pos.w as int, pos.h as int)), d1, d2, false)
            && step_post(b, 2, pos, sign, l0.row(2, row_of(2, pos.w as int, pos.h as int)), l1.row(2, row_of(2, pos.w as int, pos.h as int)), d2, d3, false)
            && step_post(b, 3, pos, sign, l0.row(3, row_of(3, pos.w as int, pos.h as int)), l1.row(3, row_of(3, pos.w as int, pos.h as int)), d3, d, false),
    ensures
        fam_ok(l0, l1, b, pos, sign, 0, t.0.0, t.0.1, t.0.2, t.0.3),
        fam_ok(l0, l1, b, pos, sign, 1, t.1.0, t.1.1, t.1.2, t.1.3),
        fam_ok(l0, l1, b, pos, sign, 2, t.2.0, t.2.1, t.2.2, t.2.3),
        fam_ok(l0, l1, b, pos, sign, 3, t.3.0, t.3.1, t.3.2, t.3.3),
        d == t.0.0 + t.1.0 + t.2.0 + t.3.0,
        !wins_by(b, pos, sign),
        changes_bounded(d.push(last)),
{
    let w = pos.w as int;
    let h = pos.h as int;
    let (d1, d2, d3) = choose|d1: Seq<(usize, i16)>, d2: Seq<(usize, i16)>, d3: Seq<(usize, i16)>|
        step_post(b, 0, pos, sign, l0.row(0, row_of(0, w, h)), l1.row(0, row_of(0, w, h)), Seq::empty(), d1, false)
        && step_post(b, 1, pos, sign, l0.row(1, row_of(1, w, h)), l1.row(1, row_of(1, w, h)), d1, d2, false)
        && step_post(b, 2, pos, sign, l0.row(2, row_of(2, w, h)), l1.row(2, row_of(2, w, h)), d2, d3, false)
        && step_post(b, 3, pos, sign, l0.row(3, row_of(3, w, h)), l1.row(3, row_of(3, w, h)), d3, d, false);
    let s0 = l0.row(0, row_of(0, w, h));
    let s1 = l0.row(1, row_of(1, w, h));
    let s2 = l0.row(2, row_of(2, w, h));
    let s3 = l0.row(3, row_of(3, w, h));
    let n0 = l1.row(0, row_of(0, w, h));
    let n1 = l1.row(1, row_of(1, w, h));
    let n2 = l1.row(2, row_of(2, w, h));
    let n3 = l1.row(3, row_of(3, w, h));
    let d0 = Seq::<(usize, i16)>::empty();
    lemma_step_no_win(b, pos, sign, s0, n0, s1, n1, s2, n2, s3, n3, d0, d1, d2, d3, d);
    lemma_step_post_parts(b, 0, pos, sign, s0, n0, d0, d1);
    lemma_step_post_parts(b, 1, pos, sign, s1, n1, d1, d2);
    lemma_step_post_parts(b, 2, pos, sign, s2, n2, d2, d3);
    lemma_step_post_parts(b, 3, pos, sign, s3, n3, d3, d);
    let (e0, qw0, qh0, z0) = choose|e: Seq<(usize, i16)>, qw: int, qh: int, z: int|
        d1 == d0 + e && e.len() <= 4 && changes_small(e) && values_step(b, pos, s0, n0, e, qw, qh, z);
    let (e1, qw1, qh1, z1) = choose|e: Seq<(usize, i16)>, qw: int, qh: int, z: int|
        d2 == d1 + e && e.len() <= 4 && changes_small(e) && values_step(b, pos, s1, n1, e, qw, qh, z);
    let (e2, qw2, qh2, z2) = choose|e: Seq<(usize, i16)>, qw: int, qh: int, z: int|
        d3 == d2 + e && e.len() <= 4 && changes_small(e) && values_step(b, pos, s2, n2, e, qw, qh, z);
    let (e3, qw3, qh3, z3) = choose|e: Seq<(usize, i16)>, qw: int, qh: int, z: int|
        d == d3 + e && e.len() <= 4 && changes_small(e) && values_step(b, pos, s3, n3, e, qw, qh, z);
    assert(d0 + e0 =~= e0);
    lemma_move_changes_bounded(e0, e1, e2, e3, last);
    assert(d.push(last) =~= e0 + e1 + e2 + e3 + seq![last]);
    ((e0, qw0, qh0, z0), (e1, qw1, qh1, z1), (e2, qw2, qh2, z2), (e3, qw3, qh3, z3))
}

/// The step of the row of direction `f` through `pos` when the player `sign` puts a stone at
/// `pos` into the lines `l`.
pub open spec fn move_step(l: Lines, pos: BoardPos, sign: bool, f: int) -> RowStep {
    row_step(f, pos, sign, l.row(f, row_of(f, pos.w as int, pos.h as int)))
}

/// The stone makes `WIN_LEN` in a row in one of the four directions.
pub open spec fn move_wins(l: Lines, pos: BoardPos, sign: bool) -> bool {
    move_step(l, pos, sign, 0).0 || move_step(l, pos, sign, 1).0 || move_step(l, pos, sign, 2).0 || move_step(
        l,
        pos,
        sign,
        3,
    ).0
}

/// The rows through `pos` went from `l0`'s to `l1`'s by the row steps of the move, in the order
/// of the directions; the rows after a direction whose step wins are left as they were.
pub open spec fn stepped_rows(l0: Lines, l1: Lines, pos: BoardPos, sign: bool) -> bool {
    let w = pos.w as int;
    let h = pos.h as int;
    let t0 = move_step(l0, pos, sign, 0);
    let t1 = move_step(l0, pos, sign, 1);
    let t2 = move_step(l0, pos, sign, 2);
    let t3 = move_step(l0, pos, sign, 3);
    &&& l1.row(0, row_of(0, w, h)) == t0.1
    &&& l1.row(1, row_of(1, w, h)) == if t0.0 { l0.row(1, row_of(1, w, h)) } else { t1.1 }
    &&& l1.row(2, row_of(2, w, h)) == if t0.0 || t1.0 { l0.row(2, row_of(2, w, h)) } else { t2.1 }
    &&& l1.row(3, row_of(3, w, h)) == if t0.0 || t1.0 || t2.0 { l0.row(3, row_of(3, w, h)) } else { t3.1 }
}

/// The value changes of a move without a win: those of the four row steps, then the value
/// of the stone's own cell taken off.
pub open spec fn move_changes(l: Lines, pos: BoardPos, sign: bool) -> Seq<(usize, i16)> {
    move_step(l, pos, sign, 0).2 + move_step(l, pos, sign, 1).2 + move_step(l, pos, sign, 2).2 + move_step(
        l,
        pos,
        sign,
        3,
    ).2 + seq![(pos.index() as usize, (-l.values@[pos.index()]) as i16)]
}

/// Law: in a move without a win, the row of every direction changes as the lines demand.
/// Its new lines are exactly the runs of the new board that can still grow, and the value
/// changes give every other empty cell what the row's lines add there after the move minus
/// before (a line open at one end adds the square of its length there, one open at both ends
/// twice that at each end).  The only excess allowed is the square of the length of a line
/// that was open at both ends and that the stone closed at its `p2` end, left at its `p1` end;
/// the stone's own cell loses exactly that excess.
pub proof fn lemma_move_values_follow_lines(l: Lines, pos: BoardPos, sign: bool, f: int)
    requires
        l.wf(l.board@),
        pos.on_board(),
        at(l.board@, pos.w as int, pos.h as int) == 0,
        0 <= f < 4,
        !move_wins(l, pos, sign),
    ensures
        ({
            let b = l.board@;
            let r = row_of(f, pos.w as int, pos.h as int);
            let t = move_step(l, pos, sign, f);
            &&& row_good(play(b, pos, sign), f, r, t.1)
            &&& exists|qw: int, qh: int, z: int| values_step(b, pos, l.row(f, r), t.1, t.2, qw, qh, z)
        }),
{
    let b = l.board@;
    let r = row_of(f, pos.w as int, pos.h as int);
    let s = l.row(f, r);
    let t = move_step(l, pos, sign, f);
    let d0 = Seq::<(usize, i16)>::empty();
    lemma_wf_step_pre(l, b, pos, f);
    lemma_row_step_sound(b, f, pos, sign, s, d0);
    assert(!t.0);
    lemma_step_post_parts(b, f, pos, sign, s, t.1, d0, d0 + t.2);
    let (e, qw, qh, z) = choose|e: Seq<(usize, i16)>, qw: int, qh: int, z: int|
        d0 + t.2 == d0 + e && e.len() <= 4 && changes_small(e) && values_step(b, pos, s, t.1, e, qw, qh, z);
    assert(e =~= t.2) by {
        assert(d0 + t.2 =~= t.2);
        assert(d0 + e =~= e);
    }
}

/// Lines without stones, with the centre cell's value.
pub open spec fn start_value(k: int) -> int {
    if k == WIDTH / 2 * HEIGHT + HEIGHT / 2 {
        1
    } else {
        0
    }
}

impl Lines {
    /// The lines of the board without stones.
    pub fn new() -> (r: Self)
        ensures
            r.wf(empty_board()),
            r.board@ == empty_board(),
            r.shape_ok(),
            forall|f: int, rr: int| 0 <= f < 4 && 0 <= rr < row_count(f) ==> #[trigger] r.row(f, rr) == Seq::<Line>::empty(),
            forall|k: int| 0 <= k < 16 ==> #[trigger] r.values@[k] == start_value(k),
    {
        let mut left_right: Vec<LineRow> = Vec::new();
        let mut up_down: Vec<LineRow> = Vec::new();
        let mut lu_rd: Vec<LineRow> = Vec::new();
        let mut ru_ld: Vec<LineRow> = Vec::new();
        let mut i: usize = 0;
        while i < WIDTH + HEIGHT - 1
            invariant
                i <= 7,
                left_right@.len() == if i < 4 { i as int } else { 4 },
                up_down@.len() == if i < 4 { i as int } else { 4 },
                lu_rd@.len() == i,
                ru_ld@.len() == i,
                forall|k: int| 0 <= k < left_right@.len() ==> (#[trigger] left_right@[k]).lines@ == Seq::<Line>::empty(),
                forall|k: int| 0 <= k < up_down@.len() ==> (#[trigger] up_down@[k]).lines@ == Seq::<Line>::empty(),
                forall|k: int| 0 <= k < lu_rd@.len() ==> (#[trigger] lu_rd@[k]).lines@ == Seq::<Line>::empty(),
                forall|k: int| 0 <= k < ru_ld@.len() ==> (#[trigger] ru_ld@[k]).lines@ == Seq::<Line>::empty(),
            decreases 7 - i,
        {
            if i < WIDTH {
                left_right.push(LineRow::new());
            }
            if i < HEIGHT {
                up_down.push(LineRow::new());
            }
            lu_rd.push(LineRow::new());
            ru_ld.push(LineRow::new());
            i += 1;
        }
        let r = Lines {
            lr: left_right,
            ud: up_down,
            lu_rd,
            ru_ld,
            values: Self::new_values(),
            board: Ghost(empty_board()),
        };
        proof {
            reveal(Lines::wf);
            let b = empty_board();
            assert(board_ok(b));
            assert(no_four(b));
            assert forall|f: int, rr: int| 0 <= f < 4 && 0 <= rr < row_count(f) implies #[trigger] row_good(b, f, rr, r.row(f, rr)) by {
                lemma_row_good_empty(f, rr);
            }
            let e = |f: int, w: int, h: int| 0int;
            assert(r.excess_ok(b, e));
            assert forall|w: int, h: int| 0 <= w < 4 && 0 <= h < 4 implies #[trigger] r.value_ok(b, e, w, h) by {
                assert(r.row(0, row_of(0, w, h)) == Seq::<Line>::empty());
                assert(r.row(1, row_of(1, w, h)) == Seq::<Line>::empty());
                assert(r.row(2, row_of(2, w, h)) == Seq::<Line>::empty());
                assert(r.row(3, row_of(3, w, h)) == Seq::<Line>::empty());
            }
        }
        r
    }

    fn new_values() -> (values: [i16; 16])
        ensures
            forall|k: int| 0 <= k < 16 ==> #[trigger] values@[k] == start_value(k),
    {
        let mut values = [0; CELLS];
        values[WIDTH / 2 * HEIGHT + HEIGHT / 2] = 1;
        values
    }

    fn update_values(values: &mut [i16; 16], changes: &Vec<(usize, i16)>)
        requires
            aims_at_cells(changes@),
            sums_fit(old(values)@, changes@),
        ensures
            forall|k: int| 0 <= k < 16 ==> #[trigger] final(values)@[k] == old(values)@[k] + change_sum(changes@, k),
    {
        let ghost v0 = values@;
        let mut i: usize = 0;
        while i < changes.len()
            invariant
                i <= changes@.len(),
                aims_at_cells(changes@),
                sums_fit(v0, changes@),
                values@.len() == 16,
                forall|k: int| 0 <= k < 16 ==> #[trigger] values@[k] == v0[k] + change_sum(changes@.subrange(0, i as int), k),
            decreases changes@.len() - i,
        {
            let change = changes[i];
            let ghost pre = changes@.subrange(0, i as int);
            proof {
                assert(changes@.subrange(0, i + 1) =~= pre.push(change));
                assert forall|k: int| 0 <= k < 16 implies #[trigger] change_sum(changes@.subrange(0, i + 1), k)
                    == change_sum(pre, k) + if change.0 == k { change.1 as int } else { 0 } by {
                    lemma_change_sum_push(pre, change, k);
                }
                assert(-32768 <= v0[change.0 as int] + change_sum(changes@.subrange(0, i + 1), change.0 as int) <= 32767);
            }
            values[change.0] = values[change.0] + change.1;
            i += 1;
        }
        proof {
            assert(changes@.subrange(0, changes@.len() as int) =~= changes@);
        }
    }

    /// The heuristic value of every cell.
    pub fn get_values(&self) -> (values: &[i16; 16])
        ensures
            *values == self.values,
    {
        &self.values
    }

    /// Puts a stone of `sign` at `pos` into the lines.  Returns `Win` when the stone makes
    /// `WIN_LEN` in a row; otherwise the lines and values describe the new board.  Either way
    /// the returned changes let `redo_changes` take the move back.
    #[verifier::rlimit(100)]
    #[verifier::spinoff_prover]
    pub fn update_move(&mut self, pos: BoardPos, sign: bool) -> (res: UpdateResult)
        requires
            old(self).wf(old(self).board@),
            pos.on_board(),
            at(old(self).board@, pos.w as int, pos.h as int) == 0,
        ensures
            match res {
                UpdateResult::Continue(ch) => {
                    &&& !wins_by(old(self).board@, pos, sign)
                    &&& final(self).board@ == play(old(self).board@, pos, sign)
                    &&& final(self).wf(final(self).board@)
                    &&& update_frame(*old(self), *final(self), ch, pos)
                },
                UpdateResult::Win(ch) => {
                    &&& wins_by(old(self).board@, pos, sign)
                    &&& final(self).board@ == old(self).board@
                    &&& update_frame(*old(self), *final(self), ch, pos)
                    &&& ch.value_changes@.len() == 0
                },
            },
            res is Win <==> move_wins(*old(self), pos, sign),
            stepped_rows(*old(self), *final(self), pos, sign),
            res matches UpdateResult::Continue(ch) ==> ch.value_changes@ == move_changes(*old(self), pos, sign),
    {
        let ghost b = self.board@;
        let ghost l0 = *self;
        proof {
            lemma_wf_step_pre(l0, b, pos, 0);
            lemma_wf_step_pre(l0, b, pos, 1);
            lemma_wf_step_pre(l0, b, pos, 2);
            lemma_wf_step_pre(l0, b, pos, 3);
            lemma_wf_bounded(l0, b);
        }
        let i0 = pos.h as usize;
        let i1 = pos.w as usize;
        let i2 = (pos.w - pos.h + HEIGHT as i8 - 1) as usize;
        let i3 = (pos.w + pos.h) as usize;
        let old_lines = [
            (i0, self.lr[i0].clone()),
            (i1, self.ud[i1].clone()),
            (i2, self.lu_rd[i2].clone()),
            (i3, self.ru_ld[i3].clone()),
        ];
        let result = LineRow::update_rows(
            &mut self.lr[i0],
            &mut self.ud[i1],
            &mut self.lu_rd[i2],
            &mut self.ru_ld[i3],
            pos,
            sign,
            Ghost(b),
        );
        proof {
            let w = pos.w as int;
            let h = pos.h as int;
            assert(i0 == row_of(0, w, h));
            assert(i1 == row_of(1, w, h));
            assert(i2 == row_of(2, w, h));
            assert(i3 == row_of(3, w, h));
            assert(l0.row(0, row_of(0, w, h)) == l0.lr@[i0 as int].lines@);
            assert(l0.row(1, row_of(1, w, h)) == l0.ud@[i1 as int].lines@);
            assert(l0.row(2, row_of(2, w, h)) == l0.lu_rd@[i2 as int].lines@);
            assert(l0.row(3, row_of(3, w, h)) == l0.ru_ld@[i3 as int].lines@);
            assert(stepped_rows(l0, *self, pos, sign));
        }
        match result {
            Some(mut value_changes) => {
                let ghost mid = *self;
                let ghost d = value_changes@;
                let k = pos.get_usize();
                proof {
                    assert(self.values@ == l0.values@);
                    assert(i0 == row_of(0, pos.w as int, pos.h as int));
                    assert(i1 == row_of(1, pos.w as int, pos.h as int));
                    assert(i2 == row_of(2, pos.w as int, pos.h as int));
                    assert(i3 == row_of(3, pos.w as int, pos.h as int));
                    let (d1, d2, d3) = choose|d1: Seq<(usize, i16)>, d2: Seq<(usize, i16)>, d3: Seq<(usize, i16)>|
                        step_post(b, 0, pos, sign, l0.lr@[i0 as int].lines@, mid.lr@[i0 as int].lines@, Seq::empty(), d1, false)
                        && step_post(b, 1, pos, sign, l0.ud@[i1 as int].lines@, mid.ud@[i1 as int].lines@, d1, d2, false)
                        && step_post(b, 2, pos, sign, l0.lu_rd@[i2 as int].lines@, mid.lu_rd@[i2 as int].lines@, d2, d3, false)
                        && step_post(b, 3, pos, sign, l0.ru_ld@[i3 as int].lines@, mid.ru_ld@[i3 as int].lines@, d3, d, false);
                    let w = pos.w as int;
                    let h = pos.h as int;
                    assert(step_post(b, 0, pos, sign, l0.row(0, row_of(0, w, h)), mid.row(0, row_of(0, w, h)), Seq::empty(), d1, false));
                    assert(step_post(b, 1, pos, sign, l0.row(1, row_of(1, w, h)), mid.row(1, row_of(1, w, h)), d1, d2, false));
                    assert(step_post(b, 2, pos, sign, l0.row(2, row_of(2, w, h)), mid.row(2, row_of(2, w, h)), d2, d3, false));
                    assert(step_post(b, 3, pos, sign, l0.row(3, row_of(3, w, h)), mid.row(3, row_of(3, w, h)), d3, d, false));
                    assert(0 <= l0.values@[cell(pos.w as int, pos.h as int)] <= 181);
                }
                let last = (k, -self.values[k]);
                let ghost ts = lemma_move_steps(l0, mid, b, pos, sign, d, last);
                value_changes.push(last);
                proof {
                    lemma_sums_fit(self.values@, value_changes@);
                }
                Self::update_values(&mut self.values, &value_changes);
                self.board = Ghost(play(b, pos, sign));
                proof {
                    assert(value_changes@ == d + seq![last]);
                    assert(value_changes@ == move_changes(l0, pos, sign));
                    lemma_update_wf(l0, *self, b, pos, sign, ts.0, ts.1, ts.2, ts.3, value_changes@);
                    lemma_wf_bounded(*self, play(b, pos, sign));
                }
                UpdateResult::Continue(Changes { old_lines, value_changes, old_board: Ghost(b) })
            },
            None => UpdateResult::Win(Changes { old_lines, value_changes: Vec::new(), old_board: Ghost(b) }),
        }
    }

    /// Takes back what `update_move` did: puts back the four rows and subtracts the value
    /// changes.
    pub fn redo_changes(&mut self, changes: Changes)
        requires
            old(self).shape_ok(),
            forall|f: int| 0 <= f < 4 ==> (#[trigger] changes.old_lines@[f]).0 < row_count(f),
            aims_at_cells(changes.value_changes@),
            diffs_fit(old(self).values@, changes.value_changes@),
        ensures
            redo_frame(*old(self), changes, *final(self)),
            final(self).shape_ok(),
    {
        let ghost l1 = *self;
        self.board = changes.old_board;
        proof {
            assert(changes.old_lines@[0].0 < 4);
            assert(changes.old_lines@[1].0 < 4);
            assert(changes.old_lines@[2].0 < 7);
            assert(changes.old_lines@[3].0 < 7);
        }
        self.lr.set(changes.old_lines[0].0, changes.old_lines[0].1.clone());
        self.ud.set(changes.old_lines[1].0, changes.old_lines[1].1.clone());
        self.lu_rd.set(changes.old_lines[2].0, changes.old_lines[2].1.clone());
        self.ru_ld.set(changes.old_lines[3].0, changes.old_lines[3].1.clone());
        let ghost v1 = self.values@;
        let ghost l_mid = *self;
        let mut i: usize = 0;
        while i < changes.value_changes.len()
            invariant
                i <= changes.value_changes@.len(),
                aims_at_cells(changes.value_changes@),
                diffs_fit(v1, changes.value_changes@),
                self.values@.len() == 16,
                forall|k: int| 0 <= k < 16 ==> #[trigger] self.values@[k] == v1[k] - change_sum(changes.value_changes@.subrange(0, i as int), k),
                self.board@ == changes.old_board@,
                self.lr@ == l_mid.lr@,
                self.ud@ == l_mid.ud@,
                self.lu_rd@ == l_mid.lu_rd@,
                self.ru_ld@ == l_mid.ru_ld@,
            decreases changes.value_changes@.len() - i,
        {
            let change = changes.value_changes[i];
            let ghost pre = changes.value_changes@.subrange(0, i as int);
            proof {
                assert(changes.value_changes@.subrange(0, i + 1) =~= pre.push(change));
                assert forall|k: int| 0 <= k < 16 implies #[trigger] change_sum(changes.value_changes@.subrange(0, i + 1), k)
                    == change_sum(pre, k) + if change.0 == k { change.1 as int } else { 0 } by {
                    lemma_change_sum_push(pre, change, k);
                }
                assert(-32768 <= v1[change.0 as int] - change_sum(changes.value_changes@.subrange(0, i + 1), change.0 as int)
                    <= 32767);
            }
            self.values[change.0] = self.values[change.0] - change.1;
            i += 1;
        }
        proof {
            assert(changes.value_changes@.subrange(0, changes.value_changes@.len() as int) =~= changes.value_changes@);
        }
    }
}

/// Lines that hold the same rows and values as lines describing a board describe it too.
pub proof fn lemma_wf_same(l: Lines, l2: Lines, b: Seq<u8>)
    requires
        l.wf(b),
        l2.same_as(l),
    ensures
        l2.wf(b),
{
    reveal(Lines::wf);
    assert forall|f: int, r: int| 0 <= f < 4 && 0 <= r < row_count(f) implies #[trigger] row_good(b, f, r, l2.row(f, r)) by {
        assert(row_good(b, f, r, l.row(f, r)));
    }
    let e = choose|e: spec_fn(int, int, int) -> int|
        l.excess_ok(b, e) && forall|w: int, h: int| 0 <= w < 4 && 0 <= h < 4 ==> #[trigger] l.value_ok(b, e, w, h);
    assert forall|f: int, w: int, h: int| 0 <= f < 4 && 0 <= w < 4 && 0 <= h < 4 implies l2.row(f, row_of(f, w, h)) == l.row(f, row_of(f, w, h)) by {}
    assert(l2.excess_ok(b, e));
    assert forall|w: int, h: int| 0 <= w < 4 && 0 <= h < 4 implies #[trigger] l2.value_ok(b, e, w, h) by {
        assert(l.value_ok(b, e, w, h));
        assert(l2.row(0, row_of(0, w, h)) == l.row(0, row_of(0, w, h)));
        assert(l2.row(1, row_of(1, w, h)) == l.row(1, row_of(1, w, h)));
        assert(l2.row(2, row_of(2, w, h)) == l.row(2, row_of(2, w, h)));
        assert(l2.row(3, row_of(3, w, h)) == l.row(3, row_of(3, w, h)));
    }
}

/// Lines that describe a board describe a well-formed board without four in a row.
pub proof fn lemma_wf_board(l: Lines, b: Seq<u8>)
    requires
        l.wf(b),
    ensures
        board_ok(b),
        no_four(b),
        l.shape_ok(),
        l.values_bounded(),
{
    reveal(Lines::wf);
    lemma_wf_bounded(l, b);
}

/// `same_as` is symmetric and transitive.
pub proof fn lemma_same_as_trans(l1: Lines, l2: Lines, l3: Lines)
    requires
        l1.same_as(l2),
        l2.same_as(l3),
    ensures
        l1.same_as(l3),
        l2.same_as(l1),
{
    assert forall|f: int, r: int| 0 <= f < 4 && 0 <= r < l1.rows(f).len() implies #[trigger] l1.row(f, r) == l3.row(f, r) by {
        assert(l1.row(f, r) == l2.row(f, r));
    }
    assert forall|f: int, r: int| 0 <= f < 4 && 0 <= r < l2.rows(f).len() implies #[trigger] l2.row(f, r) == l1.row(f, r) by {
        assert(l1.row(f, r) == l2.row(f, r));
    }
}

/// What `update_move` did still holds of lines that hold the same rows and values as its
/// result.
pub proof fn lemma_update_frame_same(l0: Lines, l1: Lines, l1b: Lines, ch: Changes, pos: BoardPos)
    requires
        update_frame(l0, l1, ch, pos),
        l1b.same_as(l1),
    ensures
        update_frame(l0, l1b, ch, pos),
{
    assert forall|f: int, r: int|
        0 <= f < 4 && 0 <= r < row_count(f) && r != row_of(f, pos.w as int, pos.h as int) implies #[trigger] l1b.row(f, r)
        == l0.row(f, r) by {
        assert(l1b.row(f, r) == l1.row(f, r));
    }
}

impl Clone for Lines {
    fn clone(&self) -> (res: Self)
        ensures
            res.same_as(*self),
    {
        let lr = clone_rows(&self.lr);
        let ud = clone_rows(&self.ud);
        let lu_rd = clone_rows(&self.lu_rd);
        let ru_ld = clone_rows(&self.ru_ld);
        Lines { lr, ud, lu_rd, ru_ld, values: self.values, board: self.board }
    }
}

/// A copy of the rows of one direction.
fn clone_rows(rows: &Vec<LineRow>) -> (res: Vec<LineRow>)
    ensures
        res@.len() == rows@.len(),
        forall|r: int| 0 <= r < rows@.len() ==> (#[trigger] res@[r]).lines@ == rows@[r].lines@,
{
    let mut res: Vec<LineRow> = Vec::new();
    let mut i: usize = 0;
    while i < rows.len()
        invariant
            i <= rows@.len(),
            res@.len() == i,
            forall|r: int| 0 <= r < i ==> (#[trigger] res@[r]).lines@ == rows@[r].lines@,
        decreases rows@.len() - i,
    {
        res.push(rows[i].clone());
        i += 1;
    }
    res
}

} // verus!
