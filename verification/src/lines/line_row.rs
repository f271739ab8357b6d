//! One row of one direction family, and the runs of stones it keeps track of.
//!
//! A `Line` stands for a run of stones of one player in a row that can still grow: at
//! least one of the two positions just beyond its ends (`p1` on the side of
//! `direction(2 * dir)`, `p2` on the other side) is an empty cell.  When both are
//! empty the line is `BOTH` active, otherwise it is active at one end only; the
//! position stored for an end that is not active is never an empty cell.
use vstd::prelude::*;

use crate::geometry::{
    along, at, at_rt, blocks, wall, four_at, wins_at, empty_board, board_ok, color, four_through, is_stone, lemma_at_rt_put, lemma_at_rt_put_all, no_four,
    put, row_of, run_down, run_up, dir_w, dir_h, cell_w, cell_h,
};
use crate::{direction, BoardPos};

verus! {

/// Which ends of a line are still open.
#[derive(Copy, Clone, PartialEq, Eq, Structural, Debug)]
pub enum LineActive {
    ONE,
    BOTH,
}

/// A run of `len` stones of one player, with the positions just beyond its ends.
#[derive(Clone, Copy, Debug)]
pub struct Line {
    pub p2: BoardPos,
    pub p1: BoardPos,
    pub active: LineActive,
    pub sign: bool,
    pub len: u8,
}

/// The lines of one row of one direction family.
#[derive(Debug)]
pub struct LineRow {
    pub lines: Vec<Line>,
}

impl Line {
    /// Coordinate of `p1` inside its row of family `f`.
    pub open spec fn a1(self, f: int) -> int {
        along(f, self.p1.w as int, self.p1.h as int)
    }

    /// Coordinate of `p2` inside its row of family `f`.
    pub open spec fn a2(self, f: int) -> int {
        along(f, self.p2.w as int, self.p2.h as int)
    }

    pub open spec fn both(self) -> bool {
        self.active == LineActive::BOTH
    }

    pub open spec fn n(self) -> int {
        self.len as int
    }

    pub open spec fn col(self) -> int {
        color(self.sign)
    }
}

/// Line `x` correctly describes a run of stones of row `r` of family `f` on board `b`.
pub open spec fn line_ok(b: Seq<u8>, f: int, r: int, x: Line) -> bool {
    let n = x.n();
    let c = x.col();
    let a1 = x.a1(f);
    let a2 = x.a2(f);
    &&& 1 <= n <= 3
    &&& -1 <= x.p1.w <= 4 && -1 <= x.p1.h <= 4 && -1 <= x.p2.w <= 4 && -1 <= x.p2.h <= 4
    &&& row_of(f, x.p1.w as int, x.p1.h as int) == r
    &&& row_of(f, x.p2.w as int, x.p2.h as int) == r
    &&& if x.both() {
        &&& a1 == a2 + n + 1
        &&& at_rt(b, f, r, a1) == 0
        &&& at_rt(b, f, r, a2) == 0
        &&& run_up(b, f, r, a2, n, c)
    } else {
        ||| {
            &&& at_rt(b, f, r, a1) == 0
            &&& at_rt(b, f, r, a2) != 0
            &&& run_down(b, f, r, a1, n, c)
            &&& blocks(at_rt(b, f, r, a1 - n - 1), c)
        }
        ||| {
            &&& at_rt(b, f, r, a2) == 0
            &&& at_rt(b, f, r, a1) != 0
            &&& run_up(b, f, r, a2, n, c)
            &&& blocks(at_rt(b, f, r, a2 + n + 1), c)
        }
    }
}

/// Some line of `s` has its `p1` end at coordinate `t`.
pub open spec fn has_p1(s: Seq<Line>, f: int, t: int) -> bool {
    exists|x: Line| s.contains(x) && #[trigger] x.a1(f) == t
}

/// Some line of `s` has its `p2` end at coordinate `t`.
pub open spec fn has_p2(s: Seq<Line>, f: int, t: int) -> bool {
    exists|x: Line| s.contains(x) && #[trigger] x.a2(f) == t
}

/// The lines of row `r` of family `f` are exactly the runs of that row that can still grow:
/// every line is correct, every empty cell next to a run is the end of a line, and no
/// open end belongs to two lines.
#[verifier::opaque]
pub open spec fn row_good(b: Seq<u8>, f: int, r: int, s: Seq<Line>) -> bool {
    &&& forall|x: Line| s.contains(x) ==> line_ok(b, f, r, x)
    &&& forall|t: int|
        at_rt(b, f, r, t) == 0 && is_stone(at_rt(b, f, r, t - 1)) ==> #[trigger] has_p1(s, f, t)
    &&& forall|t: int|
        at_rt(b, f, r, t) == 0 && is_stone(at_rt(b, f, r, t + 1)) ==> #[trigger] has_p2(s, f, t)
    &&& s.no_duplicates()
    &&& forall|x: Line, y: Line|
        s.contains(x) && s.contains(y) && at_rt(b, f, r, x.a1(f)) == 0 && x.a1(f) == y.a1(f)
            ==> x == y
    &&& forall|x: Line, y: Line|
        s.contains(x) && s.contains(y) && at_rt(b, f, r, x.a2(f)) == 0 && x.a2(f) == y.a2(f)
            ==> x == y
}

/// The plain facts inside `row_good`.
pub proof fn lemma_row_good_basics(b: Seq<u8>, f: int, r: int, s: Seq<Line>)
    requires
        row_good(b, f, r, s),
    ensures
        s.no_duplicates(),
{
    reveal(row_good);
}

/// The square of a run length.
pub open spec fn sq(n: int) -> int {
    n * n
}

/// What a line adds to the value of each of its open ends.
pub open spec fn weight(x: Line) -> int {
    if x.both() {
        2 * sq(x.n())
    } else {
        sq(x.n())
    }
}

/// What line `x` adds to the value of the cell `(w, h)`, when that cell is empty.
pub open spec fn contribution(x: Line, w: int, h: int) -> int {
    if (x.p1.w == w && x.p1.h == h) || (x.p2.w == w && x.p2.h == h) {
        weight(x)
    } else {
        0
    }
}

/// What the lines of `s` add to the value of the cell `(w, h)`, when that cell is empty.
pub open spec fn row_sum(s: Seq<Line>, w: int, h: int) -> int
    decreases s.len(),
{
    if s.len() == 0 {
        0
    } else {
        row_sum(s.drop_last(), w, h) + contribution(s.last(), w, h)
    }
}

/// The sum of the value changes in `d` that are aimed at cell index `k`.
pub open spec fn change_sum(d: Seq<(usize, i16)>, k: int) -> int
    decreases d.len(),
{
    if d.len() == 0 {
        0
    } else {
        change_sum(d.drop_last(), k) + if d.last().0 == k {
            d.last().1 as int
        } else {
            0
        }
    }
}

/// A line that keeps no end at coordinate `t0`.
pub open spec fn kept(f: int, t0: int, x: Line) -> bool {
    x.a1(f) != t0 && x.a2(f) != t0
}

// ---------------------------------------------------------------------------------------
// Sequences of lines
// ---------------------------------------------------------------------------------------
pub proof fn lemma_contains_push(s: Seq<Line>, y: Line)
    ensures
        forall|x: Line| #[trigger] s.push(y).contains(x) <==> s.contains(x) || x == y,
        !s.contains(y) && s.no_duplicates() ==> s.push(y).no_duplicates(),
{
    assert forall|x: Line| #[trigger] s.push(y).contains(x) <==> s.contains(x) || x == y by {
        if s.contains(x) {
            let j = choose|j: int| 0 <= j < s.len() && s[j] == x;
            assert(s.push(y)[j] == x);
        }
        if x == y {
            assert(s.push(y)[s.len() as int] == y);
        }
    }
}

pub proof fn lemma_contains_remove(s: Seq<Line>, i: int)
    requires
        0 <= i < s.len(),
        s.no_duplicates(),
    ensures
        forall|x: Line| #[trigger] s.remove(i).contains(x) <==> s.contains(x) && x != s[i],
        s.remove(i).no_duplicates(),
{
    let s2 = s.remove(i);
    assert forall|x: Line| #[trigger] s2.contains(x) <==> s.contains(x) && x != s[i] by {
        if s2.contains(x) {
            let j = choose|j: int| 0 <= j < s2.len() && s2[j] == x;
            if j < i {
                assert(s[j] == x);
            } else {
                assert(s[j + 1] == x);
            }
        }
        if s.contains(x) && x != s[i] {
            let j = choose|j: int| 0 <= j < s.len() && s[j] == x;
            if j < i {
                assert(s2[j] == x);
            } else {
                assert(s2[j - 1] == x);
            }
        }
    }
}

pub proof fn lemma_contains_update(s: Seq<Line>, i: int, y: Line)
    requires
        0 <= i < s.len(),
        s.no_duplicates(),
    ensures
        forall|x: Line| #[trigger]
            s.update(i, y).contains(x) <==> (s.contains(x) && x != s[i]) || x == y,
        (forall|x: Line| s.contains(x) && x != s[i] ==> x != y) ==> s.update(i, y).no_duplicates(),
{
    let s2 = s.update(i, y);
    assert forall|x: Line| #[trigger] s2.contains(x) <==> (s.contains(x) && x != s[i]) || x == y by {
        if s2.contains(x) {
            let j = choose|j: int| 0 <= j < s2.len() && s2[j] == x;
            if j != i {
                assert(s[j] == x);
            }
        }
        if s.contains(x) && x != s[i] {
            let j = choose|j: int| 0 <= j < s.len() && s[j] == x;
            assert(s2[j] == x);
        }
        if x == y {
            assert(s2[i] == y);
        }
    }
    if forall|x: Line| s.contains(x) && x != s[i] ==> x != y {
        assert forall|j: int, k: int| 0 <= j < s2.len() && 0 <= k < s2.len() && j != k implies s2[j]
            != s2[k] by {
            if j != i && k != i {
                assert(s[j] != s[k]);
            } else if j == i {
                assert(s.contains(s[k]));
            } else {
                assert(s.contains(s[j]));
            }
        }
    }
}

pub proof fn lemma_row_sum_push(s: Seq<Line>, y: Line, w: int, h: int)
    ensures
        row_sum(s.push(y), w, h) == row_sum(s, w, h) + contribution(y, w, h),
{
    assert(s.push(y).drop_last() =~= s);
}

pub proof fn lemma_row_sum_update(s: Seq<Line>, i: int, y: Line, w: int, h: int)
    requires
        0 <= i < s.len(),
    ensures
        row_sum(s.update(i, y), w, h) == row_sum(s, w, h) - contribution(s[i], w, h)
            + contribution(y, w, h),
    decreases s.len(),
{
    let s2 = s.update(i, y);
    if i == s.len() - 1 {
        assert(s2.drop_last() =~= s.drop_last());
    } else {
        assert(s2.drop_last() =~= s.drop_last().update(i, y));
        lemma_row_sum_update(s.drop_last(), i, y, w, h);
    }
}

pub proof fn lemma_row_sum_remove(s: Seq<Line>, i: int, w: int, h: int)
    requires
        0 <= i < s.len(),
    ensures
        row_sum(s.remove(i), w, h) == row_sum(s, w, h) - contribution(s[i], w, h),
    decreases s.len(),
{
    let s2 = s.remove(i);
    if i == s.len() - 1 {
        assert(s2 =~= s.drop_last());
    } else {
        assert(s2.drop_last() =~= s.drop_last().remove(i));
        lemma_row_sum_remove(s.drop_last(), i, w, h);
    }
}

pub proof fn lemma_change_sum_push(d: Seq<(usize, i16)>, e: (usize, i16), k: int)
    ensures
        change_sum(d.push(e), k) == change_sum(d, k) + if e.0 == k {
            e.1 as int
        } else {
            0
        },
{
    assert(d.push(e).drop_last() =~= d);
}

pub proof fn lemma_change_sum_append(d: Seq<(usize, i16)>, e: Seq<(usize, i16)>, k: int)
    ensures
        change_sum(d + e, k) == change_sum(d, k) + change_sum(e, k),
    decreases e.len(),
{
    if e.len() == 0 {
        assert(d + e =~= d);
    } else {
        assert((d + e).drop_last() =~= d + e.drop_last());
        lemma_change_sum_append(d, e.drop_last(), k);
    }
}

// ---------------------------------------------------------------------------------------
// One step of a row: a stone is put at coordinate t0 of the row
// ---------------------------------------------------------------------------------------
/// A line that keeps away from the new stone stays correct.
#[verifier::rlimit(40)]
pub proof fn lemma_kept_line_ok(b: Seq<u8>, f: int, r: int, x: Line, w: int, h: int, c: int)
    requires
        board_ok(b),
        0 <= f < 4,
        0 <= w < 4,
        0 <= h < 4,
        at(b, w, h) == 0,
        is_stone(c),
        r == row_of(f, w, h),
        line_ok(b, f, r, x),
        kept(f, along(f, w, h), x),
    ensures
        line_ok(put(b, w, h, c), f, r, x),
{
    let a1 = x.a1(f);
    let a2 = x.a2(f);
    let n = x.n();
    lemma_at_rt_put(b, w, h, c, f, r, a1);
    lemma_at_rt_put(b, w, h, c, f, r, a2);
    lemma_at_rt_put(b, w, h, c, f, r, a1 - 1);
    lemma_at_rt_put(b, w, h, c, f, r, a1 - 2);
    lemma_at_rt_put(b, w, h, c, f, r, a1 - 3);
    lemma_at_rt_put(b, w, h, c, f, r, a1 - n - 1);
    lemma_at_rt_put(b, w, h, c, f, r, a2 + 1);
    lemma_at_rt_put(b, w, h, c, f, r, a2 + 2);
    lemma_at_rt_put(b, w, h, c, f, r, a2 + 3);
    lemma_at_rt_put(b, w, h, c, f, r, a2 + n + 1);
}

/// An open `p1` end has the run's last stone just below it.
pub proof fn lemma_open_p1(b: Seq<u8>, f: int, r: int, x: Line)
    requires
        line_ok(b, f, r, x),
        at_rt(b, f, r, x.a1(f)) == 0,
    ensures
        at_rt(b, f, r, x.a1(f) - 1) == x.col(),
        is_stone(x.col()),
{
}

/// An open `p2` end has the run's first stone just above it.
pub proof fn lemma_open_p2(b: Seq<u8>, f: int, r: int, x: Line)
    requires
        line_ok(b, f, r, x),
        at_rt(b, f, r, x.a2(f)) == 0,
    ensures
        at_rt(b, f, r, x.a2(f) + 1) == x.col(),
        is_stone(x.col()),
{
}

/// The conditions under which the lines `N` may join the lines of a row that keep away from
/// the new stone at `t0`: each is correct on the new board, each of its open ends either
/// had no stone next to it before or took over the end of a line that touched `t0`, they
/// do not share open ends, and they cover every end that the move opened or that a line
/// touching `t0` held.
#[verifier::opaque]
pub open spec fn new_lines_fit(b: Seq<u8>, f: int, r: int, s: Seq<Line>, t0: int, c: int, nl: Seq<Line>) -> bool {
    let b2_at = |t: int| if t == t0 { c } else { at_rt(b, f, r, t) };
    &&& forall|y: Line| nl.contains(y) ==> {
        &&& (b2_at(y.a1(f)) == 0 ==> (!is_stone(at_rt(b, f, r, y.a1(f) - 1)) || exists|m: Line|
            s.contains(m) && m.a1(f) == y.a1(f) && m.a2(f) == t0))
        &&& (b2_at(y.a2(f)) == 0 ==> (!is_stone(at_rt(b, f, r, y.a2(f) + 1)) || exists|m: Line|
            s.contains(m) && m.a2(f) == y.a2(f) && m.a1(f) == t0))
    }
    &&& forall|y1: Line, y2: Line|
        nl.contains(y1) && nl.contains(y2) && b2_at(y1.a1(f)) == 0 && y1.a1(f) == y2.a1(f) ==> y1 == y2
    &&& forall|y1: Line, y2: Line|
        nl.contains(y1) && nl.contains(y2) && b2_at(y1.a2(f)) == 0 && y1.a2(f) == y2.a2(f) ==> y1 == y2
    &&& at_rt(b, f, r, t0 + 1) == 0 ==> has_p1(nl, f, t0 + 1)
    &&& at_rt(b, f, r, t0 - 1) == 0 ==> has_p2(nl, f, t0 - 1)
    &&& forall|m: Line|
        s.contains(m) && m.a2(f) == t0 && at_rt(b, f, r, m.a1(f)) == 0 ==> #[trigger] has_p1(nl, f, m.a1(f))
    &&& forall|m: Line|
        s.contains(m) && m.a1(f) == t0 && at_rt(b, f, r, m.a2(f)) == 0 ==> #[trigger] has_p2(nl, f, m.a2(f))
}

/// A new line that fits never equals a line that keeps away from `t0`.
pub proof fn lemma_new_not_kept(b: Seq<u8>, f: int, r: int, s: Seq<Line>, w: int, h: int, c: int, nl: Seq<Line>)
    requires
        board_ok(b),
        0 <= f < 4,
        0 <= w < 4,
        0 <= h < 4,
        at(b, w, h) == 0,
        is_stone(c),
        r == row_of(f, w, h),
        row_good(b, f, r, s),
        new_lines_fit(b, f, r, s, along(f, w, h), c, nl),
        forall|y: Line| nl.contains(y) ==> line_ok(put(b, w, h, c), f, r, y),
    ensures
        forall|x: Line, y: Line| s.contains(x) && kept(f, along(f, w, h), x) && nl.contains(y) ==> x != y,
{
    reveal(new_lines_fit);
    reveal(row_good);
    reveal(step_pre);
    reveal(p1_case);
    let t0 = along(f, w, h);
    let b2 = put(b, w, h, c);
    lemma_at_rt_put_all(b, w, h, c);
    assert forall|x: Line, y: Line| s.contains(x) && kept(f, t0, x) && nl.contains(y) implies x != y by {
        if x == y {
            assert(line_ok(b2, f, r, y));
            assert(line_ok(b, f, r, x));
            if at_rt(b2, f, r, y.a1(f)) == 0 {
                lemma_open_p1(b, f, r, x);
                let m = choose|m: Line| s.contains(m) && m.a1(f) == y.a1(f) && m.a2(f) == t0;
                assert(x == m);
            } else {
                assert(at_rt(b2, f, r, y.a2(f)) == 0);
                lemma_open_p2(b, f, r, x);
                let m = choose|m: Line| s.contains(m) && m.a2(f) == y.a2(f) && m.a1(f) == t0;
                assert(x == m);
            }
        }
    }
}

/// One step of a row: the lines that keep away from the new stone, together with new
/// lines that fit, describe the row of the new board.
pub proof fn lemma_row_step(
    b: Seq<u8>,
    f: int,
    r: int,
    s: Seq<Line>,
    s2: Seq<Line>,
    w: int,
    h: int,
    c: int,
    nl: Seq<Line>,
)
    requires
        board_ok(b),
        0 <= f < 4,
        0 <= w < 4,
        0 <= h < 4,
        at(b, w, h) == 0,
        is_stone(c),
        r == row_of(f, w, h),
        row_good(b, f, r, s),
        new_lines_fit(b, f, r, s, along(f, w, h), c, nl),
        forall|y: Line| nl.contains(y) ==> line_ok(put(b, w, h, c), f, r, y),
        forall|x: Line| #[trigger]
            s2.contains(x) <==> (s.contains(x) && kept(f, along(f, w, h), x)) || nl.contains(x),
        s2.no_duplicates(),
    ensures
        row_good(put(b, w, h, c), f, r, s2),
{
    reveal(new_lines_fit);
    reveal(row_good);
    reveal(step_pre);
    reveal(p1_case);
    let t0 = along(f, w, h);
    let b2 = put(b, w, h, c);
    lemma_at_rt_put_all(b, w, h, c);
    assert forall|x: Line| s2.contains(x) implies line_ok(b2, f, r, x) by {
        if !nl.contains(x) {
            lemma_kept_line_ok(b, f, r, x, w, h, c);
        }
    }
    assert forall|t: int|
        at_rt(b2, f, r, t) == 0 && is_stone(at_rt(b2, f, r, t - 1)) implies #[trigger] has_p1(s2, f, t) by {
        if t - 1 == t0 {
            let y = choose|y: Line| nl.contains(y) && #[trigger] y.a1(f) == t;
            assert(s2.contains(y));
        } else {
            assert(has_p1(s, f, t));
            let x = choose|x: Line| s.contains(x) && #[trigger] x.a1(f) == t;
            if kept(f, t0, x) {
                assert(s2.contains(x));
            } else {
                assert(has_p1(nl, f, x.a1(f)));
                let y = choose|y: Line| nl.contains(y) && #[trigger] y.a1(f) == t;
                assert(s2.contains(y));
            }
        }
    }
    assert forall|t: int|
        at_rt(b2, f, r, t) == 0 && is_stone(at_rt(b2, f, r, t + 1)) implies #[trigger] has_p2(s2, f, t) by {
        if t + 1 == t0 {
            let y = choose|y: Line| nl.contains(y) && #[trigger] y.a2(f) == t;
            assert(s2.contains(y));
        } else {
            assert(has_p2(s, f, t));
            let x = choose|x: Line| s.contains(x) && #[trigger] x.a2(f) == t;
            if kept(f, t0, x) {
                assert(s2.contains(x));
            } else {
                assert(has_p2(nl, f, x.a2(f)));
                let y = choose|y: Line| nl.contains(y) && #[trigger] y.a2(f) == t;
                assert(s2.contains(y));
            }
        }
    }
    assert forall|x: Line, y: Line|
        s2.contains(x) && s2.contains(y) && at_rt(b2, f, r, x.a1(f)) == 0 && x.a1(f) == y.a1(f)
            implies x == y by {
        if nl.contains(x) && nl.contains(y) {
        } else if !nl.contains(x) && !nl.contains(y) {
        } else {
            let (k, n) = if nl.contains(x) { (y, x) } else { (x, y) };
            assert(line_ok(b, f, r, k));
            lemma_open_p1(b, f, r, k);
            let m = choose|m: Line| s.contains(m) && m.a1(f) == n.a1(f) && m.a2(f) == t0;
            assert(k == m);
        }
    }
    assert forall|x: Line, y: Line|
        s2.contains(x) && s2.contains(y) && at_rt(b2, f, r, x.a2(f)) == 0 && x.a2(f) == y.a2(f)
            implies x == y by {
        if nl.contains(x) && nl.contains(y) {
        } else if !nl.contains(x) && !nl.contains(y) {
        } else {
            let (k, n) = if nl.contains(x) { (y, x) } else { (x, y) };
            assert(line_ok(b, f, r, k));
            lemma_open_p2(b, f, r, k);
            let m = choose|m: Line| s.contains(m) && m.a2(f) == n.a2(f) && m.a1(f) == t0;
            assert(k == m);
        }
    }
}


// ---------------------------------------------------------------------------------------
// What one step of a row does, exactly
// ---------------------------------------------------------------------------------------
/// The position one step from `pos` along `direction(i)`.
pub open spec fn stepped(pos: BoardPos, i: int) -> BoardPos {
    BoardPos { w: (pos.w + dir_w(i)) as i8, h: (pos.h + dir_h(i)) as i8 }
}

/// A step of a row: whether it wins, the new lines of the row, and the value changes.
pub type RowStep = (bool, Seq<Line>, Seq<(usize, i16)>);

/// The stone at `pos` touches no line of the row of direction `dir`: it starts a line of its
/// own, with its ends at the positions next to it, unless both of them are off the board.
pub open spec fn none_step(dir: int, pos: BoardPos, sign: bool, s: Seq<Line>) -> RowStep {
    let p1 = stepped(pos, 2 * dir);
    let p2 = stepped(pos, 2 * dir + 1);
    if !p1.on_board() && !p2.on_board() {
        (false, s, Seq::empty())
    } else {
        (false, s.push(lone_line(p1, p2, sign)), lone_changes(p1, p2))
    }
}

/// The stone at `pos` is at the `p1` end of line `i1` only.  A line of the same player with
/// `M_LEN` stones wins; a shorter one grows by the stone (and is dropped when its new `p1` end
/// is off the board and its other end closed); a line of the other player is cut, and the
/// stone starts a line toward its own `p1` side.
pub open spec fn p1_step(dir: int, pos: BoardPos, sign: bool, s: Seq<Line>, i1: int) -> RowStep {
    let l = s[i1];
    let n = l.n();
    let p = stepped(pos, 2 * dir);
    if l.sign == sign {
        if l.len == M_LEN {
            (true, s, Seq::empty())
        } else if !l.both() {
            if p.on_board() {
                (false, s.update(i1, with_p1(l, p, LineActive::ONE, n + 1)), seq![(p.index() as usize, sq(n + 1) as i16)])
            } else {
                (false, s.remove(i1), Seq::empty())
            }
        } else if p.on_board() {
            (
                false,
                s.update(i1, with_p1(l, p, LineActive::BOTH, n + 1)),
                seq![
                    (l.p2.index() as usize, (-2 * sq(n)) as i16),
                    (p.index() as usize, (2 * sq(n + 1)) as i16),
                    (l.p2.index() as usize, (2 * sq(n + 1)) as i16),
                ],
            )
        } else {
            (
                false,
                s.update(i1, with_p1(l, p, LineActive::ONE, n + 1)),
                seq![(l.p2.index() as usize, (-2 * sq(n)) as i16), (l.p2.index() as usize, sq(n + 1) as i16)],
            )
        }
    } else {
        (false, cut_p1_row(s, i1, p, stepped(pos, 2 * dir + 1), sign), cut_p1_changes(l, p))
    }
}

/// The stone at `pos` is at the `p2` end of line `i2` only: as `p1_step`, on the other side.
/// When a line of the other player open at both ends is cut, its value is taken off at its
/// `p2` end, which is the stone's own cell.
pub open spec fn p2_step(dir: int, pos: BoardPos, sign: bool, s: Seq<Line>, i2: int) -> RowStep {
    let l = s[i2];
    let n = l.n();
    let p = stepped(pos, 2 * dir + 1);
    if l.sign == sign {
        if l.len == M_LEN {
            (true, s, Seq::empty())
        } else if !l.both() {
            if p.on_board() {
                (false, s.update(i2, with_p2(l, p, LineActive::ONE, n + 1)), seq![(p.index() as usize, sq(n + 1) as i16)])
            } else {
                (false, s.remove(i2), Seq::empty())
            }
        } else if p.on_board() {
            (
                false,
                s.update(i2, with_p2(l, p, LineActive::BOTH, n + 1)),
                seq![
                    (l.p1.index() as usize, (-2 * sq(n)) as i16),
                    (l.p1.index() as usize, (2 * sq(n + 1)) as i16),
                    (p.index() as usize, (2 * sq(n + 1)) as i16),
                ],
            )
        } else {
            (
                false,
                s.update(i2, with_p2(l, p, LineActive::ONE, n + 1)),
                seq![(l.p1.index() as usize, (-2 * sq(n)) as i16), (l.p1.index() as usize, sq(n + 1) as i16)],
            )
        }
    } else {
        (false, cut_p2_row(s, i2, p, stepped(pos, 2 * dir), sign), cut_p2_changes(l, p))
    }
}

/// Removes the entries `i` and `j` (`i != j`) of `s`, the higher one first.
pub open spec fn remove_two(s: Seq<Line>, i: int, j: int) -> Seq<Line> {
    if i > j {
        s.remove(i).remove(j)
    } else {
        s.remove(j).remove(i)
    }
}

/// The stone is at the `p1` end of line `i1` and at the `p2` end of line `i2`.  Lines of the
/// stone's player join through it (or win); a line of the other player is closed at the
/// stone; a line closed at both ends is dropped.
pub open spec fn both_step(sign: bool, s: Seq<Line>, i1: int, i2: int) -> RowStep {
    let l1 = s[i1];
    let l2 = s[i2];
    let n1 = l1.n();
    let n2 = l2.n();
    if l1.sign == sign && l2.sign == sign {
        if n1 + n2 + 1 > M_LEN {
            (true, s, Seq::empty())
        } else if !l1.both() && !l2.both() {
            (false, remove_two(s, i1, i2), Seq::empty())
        } else if !l1.both() {
            (
                false,
                s.update(i1, with_p1(l1, l2.p1, LineActive::ONE, n1 + n2 + 1)).remove(i2),
                seq![(l2.p1.index() as usize, (-2 * sq(n2)) as i16), (l2.p1.index() as usize, sq(n1 + n2 + 1) as i16)],
            )
        } else if !l2.both() {
            (
                false,
                s.update(i2, with_p2(l2, l1.p2, LineActive::ONE, n1 + n2 + 1)).remove(i1),
                seq![(l1.p2.index() as usize, (-2 * sq(n1)) as i16), (l1.p2.index() as usize, sq(n1 + n2 + 1) as i16)],
            )
        } else {
            (
                false,
                s.update(i1, with_p1(l1, l2.p1, l1.active, n1 + n2 + 1)),
                seq![
                    (l1.p2.index() as usize, (-2 * sq(n1)) as i16),
                    (l2.p1.index() as usize, (-2 * sq(n2)) as i16),
                    (l2.p1.index() as usize, (2 * sq(n1 + n2 + 1)) as i16),
                    (l1.p2.index() as usize, (2 * sq(n1 + n2 + 1)) as i16),
                ],
            )
        }
    } else if l1.sign == sign {
        if n1 == M_LEN {
            (true, s, Seq::empty())
        } else if !l1.both() && !l2.both() {
            (false, remove_two(s, i1, i2), Seq::empty())
        } else if !l1.both() {
            (
                false,
                s.update(i2, with_p2(l2, l2.p2, LineActive::ONE, n2)).remove(i1),
                seq![(l2.p1.index() as usize, (-sq(n2)) as i16)],
            )
        } else if !l2.both() {
            (
                false,
                s.update(i1, with_p1(l1, l1.p1, LineActive::ONE, n1 + 1)).remove(i2),
                seq![(l1.p2.index() as usize, (-2 * sq(n1)) as i16), (l1.p2.index() as usize, sq(n1 + 1) as i16)],
            )
        } else {
            (
                false,
                s.update(i1, with_p1(l1, l1.p1, LineActive::ONE, n1 + 1)).update(i2, with_p2(l2, l2.p2, LineActive::ONE, n2)),
                seq![
                    (l2.p1.index() as usize, (-sq(n2)) as i16),
                    (l1.p2.index() as usize, (-2 * sq(n1)) as i16),
                    (l1.p2.index() as usize, sq(n1 + 1) as i16),
                ],
            )
        }
    } else if l2.sign == sign {
        if n2 == M_LEN {
            (true, s, Seq::empty())
        } else if !l1.both() && !l2.both() {
            (false, remove_two(s, i1, i2), Seq::empty())
        } else if !l1.both() {
            (
                false,
                s.update(i2, with_p2(l2, l2.p2, LineActive::ONE, n2 + 1)).remove(i1),
                seq![(l2.p1.index() as usize, (-2 * sq(n2)) as i16), (l2.p1.index() as usize, sq(n2 + 1) as i16)],
            )
        } else if !l2.both() {
            (
                false,
                s.update(i1, with_p1(l1, l1.p1, LineActive::ONE, n1)).remove(i2),
                seq![(l1.p2.index() as usize, (-sq(n1)) as i16)],
            )
        } else {
            (
                false,
                s.update(i1, with_p1(l1, l1.p1, LineActive::ONE, n1)).update(i2, with_p2(l2, l2.p2, LineActive::ONE, n2 + 1)),
                seq![
                    (l2.p1.index() as usize, (-2 * sq(n2)) as i16),
                    (l1.p2.index() as usize, (-sq(n1)) as i16),
                    (l2.p1.index() as usize, sq(n2 + 1) as i16),
                ],
            )
        }
    } else {
        if !l1.both() && !l2.both() {
            (false, remove_two(s, i1, i2), Seq::empty())
        } else if !l1.both() {
            (
                false,
                s.update(i2, with_p2(l2, l2.p2, LineActive::ONE, n2)).remove(i1),
                seq![(l2.p1.index() as usize, (-sq(n2)) as i16)],
            )
        } else if !l2.both() {
            (
                false,
                s.update(i1, with_p1(l1, l1.p1, LineActive::ONE, n1)).remove(i2),
                seq![(l1.p2.index() as usize, (-sq(n1)) as i16)],
            )
        } else {
            (
                false,
                s.update(i1, with_p1(l1, l1.p1, LineActive::ONE, n1)).update(i2, with_p2(l2, l2.p2, LineActive::ONE, n2)),
                seq![(l1.p2.index() as usize, (-sq(n1)) as i16), (l2.p1.index() as usize, (-sq(n2)) as i16)],
            )
        }
    }
}

/// A row step `t` is what happened: `win` is its result, `s2` its new lines, and the changes
/// went from `d0` to `d` by appending its value changes.
pub open spec fn does_step(t: RowStep, win: bool, s2: Seq<Line>, d0: Seq<(usize, i16)>, d: Seq<(usize, i16)>) -> bool {
    &&& win == t.0
    &&& s2 == t.1
    &&& d == d0 + t.2
}

/// Some line of `s` has its `p1` end at `pos`.
pub open spec fn some_p1_at(s: Seq<Line>, pos: BoardPos) -> bool {
    exists|i: int| 0 <= i < s.len() && #[trigger] s[i].p1 == pos
}

/// Some line of `s` has its `p2` end at `pos`.
pub open spec fn some_p2_at(s: Seq<Line>, pos: BoardPos) -> bool {
    exists|i: int| 0 <= i < s.len() && #[trigger] s[i].p2 == pos
}

/// The step of the row `s` of direction `dir` when a stone of `sign` is put at `pos`,
/// according to the lines that end at `pos`.
pub open spec fn row_step(dir: int, pos: BoardPos, sign: bool, s: Seq<Line>) -> RowStep {
    let i1 = choose|i: int| 0 <= i < s.len() && #[trigger] s[i].p1 == pos;
    let i2 = choose|i: int| 0 <= i < s.len() && #[trigger] s[i].p2 == pos;
    if some_p1_at(s, pos) && some_p2_at(s, pos) {
        both_step(sign, s, i1, i2)
    } else if some_p1_at(s, pos) {
        p1_step(dir, pos, sign, s, i1)
    } else if some_p2_at(s, pos) {
        p2_step(dir, pos, sign, s, i2)
    } else {
        none_step(dir, pos, sign, s)
    }
}

// ---------------------------------------------------------------------------------------
// What one step of a row promises
// ---------------------------------------------------------------------------------------
/// The state of a row before a stone is put at `pos`.
#[verifier::opaque]
pub open spec fn step_pre(b: Seq<u8>, f: int, pos: BoardPos, s: Seq<Line>) -> bool {
    &&& board_ok(b)
    &&& no_four(b)
    &&& 0 <= f < 4
    &&& pos.on_board()
    &&& at(b, pos.w as int, pos.h as int) == 0
    &&& row_good(b, f, row_of(f, pos.w as int, pos.h as int), s)
}

/// Every value change aims at a cell and stays small.
pub open spec fn changes_small(e: Seq<(usize, i16)>) -> bool {
    forall|i: int| 0 <= i < e.len() ==> (#[trigger] e[i]).0 < 16 && -18 <= e[i].1 <= 18
}

/// The value change of cell `(w, h)` in `values_step`.
pub open spec fn cell_step(
    b: Seq<u8>,
    pos: BoardPos,
    s: Seq<Line>,
    s2: Seq<Line>,
    e: Seq<(usize, i16)>,
    qw: int,
    qh: int,
    z: int,
    w: int,
    h: int,
) -> bool {
    0 <= w < 4 && 0 <= h < 4 && !(w == pos.w && h == pos.h) ==> change_sum(e, w * 4 + h) == (
    if at(b, w, h) == 0 {
        row_sum(s2, w, h) - row_sum(s, w, h) + if w == qw && h == qh {
            z
        } else {
            0
        }
    } else {
        0
    })
}

/// The value changes `e` follow the change of the lines of the row from `s` to `s2`: on every
/// other empty cell they add what the row's lines add there, except for an excess `z` that
/// a `p2` end closed by the other player leaves on the cell `(qw, qh)`; occupied cells other
/// than `pos` get nothing, and `pos` gets at most that excess taken away.
pub open spec fn values_step(
    b: Seq<u8>,
    pos: BoardPos,
    s: Seq<Line>,
    s2: Seq<Line>,
    e: Seq<(usize, i16)>,
    qw: int,
    qh: int,
    z: int,
) -> bool {
    &&& z == 0 || (1 <= z <= 9 && (exists|m: Line|
        s.contains(m) && m.both() && m.p1.w == qw && m.p1.h == qh) && (exists|y: Line|
        s2.contains(y) && !y.both() && y.p1.w == qw && y.p1.h == qh) && at(b, qw, qh) == 0)
    &&& z == 0 || closed_at_stone(pos, s, s2, qw, qh, z)
    &&& forall|w: int, h: int| #[trigger] cell_step(b, pos, s, s2, e, qw, qh, z, w, h)
    &&& -9 <= change_sum(e, pos.w * 4 + pos.h) <= 0
    &&& change_sum(e, pos.w * 4 + pos.h) == -z
}

/// The one source of an excess value: a line open at both ends whose `p2` end is the stone
/// stays in the row as the same run, closed at the stone (the other player's stone closed
/// it); the excess is the square of its length and stays at its `p1` end `(qw, qh)`.
#[verifier::opaque]
pub open spec fn closed_at_stone(pos: BoardPos, s: Seq<Line>, s2: Seq<Line>, qw: int, qh: int, z: int) -> bool {
    exists|m: Line|
        s.contains(m) && m.both() && m.p1.w == qw && m.p1.h == qh && m.p2 == pos && z == sq(m.n()) && s2.contains(
            with_p2(m, pos, LineActive::ONE, m.n()),
        )
}

/// What one step of a row promises: `win` tells whether the stone makes four in a row in
/// this row; without a win the row's lines describe the new board and the value changes
/// `e`, appended to `d0`, follow the lines.
#[verifier::opaque]
pub open spec fn step_post(
    b: Seq<u8>,
    f: int,
    pos: BoardPos,
    sign: bool,
    s: Seq<Line>,
    s2: Seq<Line>,
    d0: Seq<(usize, i16)>,
    d: Seq<(usize, i16)>,
    win: bool,
) -> bool {
    let b2 = put(b, pos.w as int, pos.h as int, color(sign));
    let r = row_of(f, pos.w as int, pos.h as int);
    &&& win == four_through(b2, f, r, along(f, pos.w as int, pos.h as int), color(sign))
    &&& win ==> s2 == s && d == d0
    &&& !win ==> row_good(b2, f, r, s2) && exists|e: Seq<(usize, i16)>, qw: int, qh: int, z: int|
        d == d0 + e && e.len() <= 4 && changes_small(e) && values_step(b, pos, s, s2, e, qw, qh, z)
}

/// No line of the row has an end at `pos`.
pub open spec fn no_end_at(s: Seq<Line>, pos: BoardPos) -> bool {
    forall|x: Line| s.contains(x) ==> x.p1 != pos && x.p2 != pos
}

/// The squares of the possible run lengths.
pub proof fn lemma_sq_small()
    ensures
        sq(1) == 1,
        sq(2) == 4,
        sq(3) == 9,
        sq(4) == 16,
{
}

/// One term of `change_sum` over a short list of changes.
pub open spec fn change_term(e: Seq<(usize, i16)>, i: int, k: int) -> int {
    if i < e.len() && e[i].0 == k {
        e[i].1 as int
    } else {
        0
    }
}

/// `change_sum` over a list of at most four changes, written out.
pub proof fn lemma_change_sum_small(e: Seq<(usize, i16)>, k: int)
    requires
        e.len() <= 4,
    ensures
        change_sum(e, k) == change_term(e, 0, k) + change_term(e, 1, k) + change_term(e, 2, k)
            + change_term(e, 3, k),
    decreases e.len(),
{
    if e.len() > 0 {
        lemma_change_sum_small(e.drop_last(), k);
    }
}

/// The positions one step up and down the row from `pos` in family `f`.
pub open spec fn step_up(f: int, pos: BoardPos, p: BoardPos) -> bool {
    p.w == pos.w + dir_w(2 * f) && p.h == pos.h + dir_h(2 * f)
}

pub open spec fn step_down(f: int, pos: BoardPos, p: BoardPos) -> bool {
    p.w == pos.w + dir_w(2 * f + 1) && p.h == pos.h + dir_h(2 * f + 1)
}

/// The neighbors of an empty cell that no line ends at hold no stone.
proof fn lemma_no_end_neighbors(b: Seq<u8>, f: int, pos: BoardPos, s: Seq<Line>)
    requires
        step_pre(b, f, pos, s),
    ensures
        ({
            let r = row_of(f, pos.w as int, pos.h as int);
            let t0 = along(f, pos.w as int, pos.h as int);
            &&& is_stone(at_rt(b, f, r, t0 - 1)) ==> exists|x: Line| s.contains(x) && x.p1 == pos
            &&& is_stone(at_rt(b, f, r, t0 + 1)) ==> exists|x: Line| s.contains(x) && x.p2 == pos
        }),
{
    reveal(row_good);
    reveal(step_pre);
    reveal(p1_case);
    let r = row_of(f, pos.w as int, pos.h as int);
    let t0 = along(f, pos.w as int, pos.h as int);
    if is_stone(at_rt(b, f, r, t0 - 1)) {
        assert(at_rt(b, f, r, t0) == 0);
        assert(has_p1(s, f, t0));
        let x = choose|x: Line| s.contains(x) && #[trigger] x.a1(f) == t0;
        assert(line_ok(b, f, r, x));
        assert(x.p1 == pos);
    }
    if is_stone(at_rt(b, f, r, t0 + 1)) {
        assert(at_rt(b, f, r, t0) == 0);
        assert(has_p2(s, f, t0));
        let x = choose|x: Line| s.contains(x) && #[trigger] x.a2(f) == t0;
        assert(line_ok(b, f, r, x));
        assert(x.p2 == pos);
    }
}

/// The line that a lone stone starts.
pub open spec fn lone_line(p1: BoardPos, p2: BoardPos, sign: bool) -> Line {
    Line {
        p1,
        p2,
        active: if p1.on_board() && p2.on_board() {
            LineActive::BOTH
        } else {
            LineActive::ONE
        },
        sign,
        len: 1,
    }
}

/// The value changes for a lone stone's line.
pub open spec fn lone_changes(p1: BoardPos, p2: BoardPos) -> Seq<(usize, i16)> {
    if !p1.on_board() {
        seq![(p2.index() as usize, 1i16)]
    } else if !p2.on_board() {
        seq![(p1.index() as usize, 1i16)]
    } else {
        seq![(p1.index() as usize, 2i16), (p2.index() as usize, 2i16)]
    }
}

proof fn lemma_none_value_at(
    b: Seq<u8>,
    pos: BoardPos,
    p1: BoardPos,
    p2: BoardPos,
    y: Line,
    s: Seq<Line>,
    e: Seq<(usize, i16)>,
    w: int,
    h: int,
)
    requires
        b.len() == 16,
        pos.on_board(),
        p1.on_board() ==> at(b, p1.w as int, p1.h as int) == 0,
        p2.on_board() ==> at(b, p2.w as int, p2.h as int) == 0,
        p1 != p2,
        p1 != pos,
        p2 != pos,
        p1.on_board() || p2.on_board(),
        y == lone_line(p1, p2, y.sign),
        e == lone_changes(p1, p2),
        0 <= w < 4,
        0 <= h < 4,
    ensures
        !(w == pos.w && h == pos.h) ==> change_sum(e, w * 4 + h) == (if at(b, w, h) == 0 {
            row_sum(s.push(y), w, h) - row_sum(s, w, h)
        } else {
            0
        }),
        change_sum(e, pos.w * 4 + pos.h) == 0,
{
    lemma_row_sum_push(s, y, w, h);
    lemma_change_sum_small(e, w * 4 + h);
    lemma_change_sum_small(e, pos.w * 4 + pos.h);
    assert(sq(1) == 1);
}

/// The line a lone stone starts is correct and fits the row.
#[verifier::rlimit(60)]
proof fn lemma_none_fits(
    b: Seq<u8>,
    f: int,
    pos: BoardPos,
    sign: bool,
    s: Seq<Line>,
    p1: BoardPos,
    p2: BoardPos,
)
    requires
        step_pre(b, f, pos, s),
        no_end_at(s, pos),
        step_up(f, pos, p1),
        step_down(f, pos, p2),
        p1.on_board() || p2.on_board(),
    ensures
        ({
            let c = color(sign);
            let b2 = put(b, pos.w as int, pos.h as int, c);
            let r = row_of(f, pos.w as int, pos.h as int);
            let t0 = along(f, pos.w as int, pos.h as int);
            let y = lone_line(p1, p2, sign);
            &&& !four_through(b2, f, r, t0, c)
            &&& line_ok(b2, f, r, y)
            &&& new_lines_fit(b, f, r, s, t0, c, seq![y])
            &&& p1.on_board() ==> at(b, p1.w as int, p1.h as int) == 0
            &&& p2.on_board() ==> at(b, p2.w as int, p2.h as int) == 0
        }),
{
    reveal(new_lines_fit);
    reveal(row_good);
    reveal(step_pre);
    reveal(p1_case);
    let c = color(sign);
    let w0 = pos.w as int;
    let h0 = pos.h as int;
    let b2 = put(b, w0, h0, c);
    let r = row_of(f, w0, h0);
    let t0 = along(f, w0, h0);
    let y = lone_line(p1, p2, sign);
    lemma_no_end_neighbors(b, f, pos, s);
    lemma_at_rt_put(b, w0, h0, c, f, r, t0);
    lemma_at_rt_put(b, w0, h0, c, f, r, t0 - 1);
    lemma_at_rt_put(b, w0, h0, c, f, r, t0 + 1);
    lemma_at_rt_put(b, w0, h0, c, f, r, t0 - 2);
    lemma_at_rt_put(b, w0, h0, c, f, r, t0 + 2);
    lemma_at_rt_put(b, w0, h0, c, f, r, t0 - 3);
    lemma_at_rt_put(b, w0, h0, c, f, r, t0 + 3);
    assert(b[w0 * 4 + h0] == 0);
    assert(at_rt(b, f, r, t0 + 1) == at(b, p1.w as int, p1.h as int));
    assert(at_rt(b, f, r, t0 - 1) == at(b, p2.w as int, p2.h as int));
    assert(y.a1(f) == t0 + 1 && y.a2(f) == t0 - 1);
    let nl = seq![y];
    assert(nl[0] == y);
    assert forall|x: Line| nl.contains(x) implies x == y by {}
    assert(has_p1(nl, f, t0 + 1) || at_rt(b, f, r, t0 + 1) != 0);
    assert(has_p2(nl, f, t0 - 1) || at_rt(b, f, r, t0 - 1) != 0);
}

/// A stone that touches no line: the row after `none`.
#[verifier::rlimit(60)]
proof fn lemma_none(
    b: Seq<u8>,
    f: int,
    pos: BoardPos,
    sign: bool,
    s: Seq<Line>,
    p1: BoardPos,
    p2: BoardPos,
)
    requires
        step_pre(b, f, pos, s),
        no_end_at(s, pos),
        step_up(f, pos, p1),
        step_down(f, pos, p2),
        p1.on_board() || p2.on_board(),
    ensures
        ({
            let c = color(sign);
            let b2 = put(b, pos.w as int, pos.h as int, c);
            let r = row_of(f, pos.w as int, pos.h as int);
            let y = lone_line(p1, p2, sign);
            let e = lone_changes(p1, p2);
            &&& !four_through(b2, f, r, along(f, pos.w as int, pos.h as int), c)
            &&& row_good(b2, f, r, s.push(y))
            &&& changes_small(e)
            &&& values_step(b, pos, s, s.push(y), e, 0, 0, 0)
        }),
{
    reveal(row_good);
    reveal(step_pre);
    reveal(p1_case);
    let c = color(sign);
    let w0 = pos.w as int;
    let h0 = pos.h as int;
    let r = row_of(f, w0, h0);
    let t0 = along(f, w0, h0);
    let y = lone_line(p1, p2, sign);
    let e = lone_changes(p1, p2);
    let s2 = s.push(y);
    let nl = seq![y];
    lemma_none_fits(b, f, pos, sign, s, p1, p2);
    assert(nl[0] == y);
    assert forall|x: Line| nl.contains(x) implies line_ok(put(b, w0, h0, c), f, r, x) by {}
    lemma_new_not_kept(b, f, r, s, w0, h0, c, nl);
    assert(!s.contains(y));
    lemma_contains_push(s, y);
    lemma_row_step(b, f, r, s, s2, w0, h0, c, nl);
    assert forall|w: int, h: int| #[trigger] cell_step(b, pos, s, s2, e, 0, 0, 0, w, h) by {
        if 0 <= w < 4 && 0 <= h < 4 {
            lemma_none_value_at(b, pos, p1, p2, y, s, e, w, h);
        }
    }
    lemma_none_value_at(b, pos, p1, p2, y, s, e, 0, 0);
}

/// A stone that touches no line and has no room on either side in this direction.
proof fn lemma_none_dead(
    b: Seq<u8>,
    f: int,
    pos: BoardPos,
    sign: bool,
    s: Seq<Line>,
    p1: BoardPos,
    p2: BoardPos,
)
    requires
        step_pre(b, f, pos, s),
        no_end_at(s, pos),
        step_up(f, pos, p1),
        step_down(f, pos, p2),
        !p1.on_board(),
        !p2.on_board(),
    ensures
        ({
            let c = color(sign);
            let b2 = put(b, pos.w as int, pos.h as int, c);
            let r = row_of(f, pos.w as int, pos.h as int);
            &&& !four_through(b2, f, r, along(f, pos.w as int, pos.h as int), c)
            &&& row_good(b2, f, r, s)
            &&& changes_small(Seq::<(usize, i16)>::empty())
            &&& values_step(b, pos, s, s, Seq::<(usize, i16)>::empty(), 0, 0, 0)
        }),
{
    reveal(new_lines_fit);
    reveal(row_good);
    reveal(step_pre);
    reveal(p1_case);
    let c = color(sign);
    let w0 = pos.w as int;
    let h0 = pos.h as int;
    let r = row_of(f, w0, h0);
    let t0 = along(f, w0, h0);
    let nl = Seq::<Line>::empty();
    let e = Seq::<(usize, i16)>::empty();
    lemma_at_rt_put(b, w0, h0, c, f, r, t0);
    lemma_at_rt_put(b, w0, h0, c, f, r, t0 - 1);
    lemma_at_rt_put(b, w0, h0, c, f, r, t0 + 1);
    lemma_at_rt_put(b, w0, h0, c, f, r, t0 - 2);
    lemma_at_rt_put(b, w0, h0, c, f, r, t0 + 2);
    lemma_at_rt_put(b, w0, h0, c, f, r, t0 - 3);
    lemma_at_rt_put(b, w0, h0, c, f, r, t0 + 3);
    assert(at_rt(b, f, r, t0 + 1) == at(b, p1.w as int, p1.h as int));
    assert(at_rt(b, f, r, t0 - 1) == at(b, p2.w as int, p2.h as int));
    assert forall|x: Line| s.contains(x) implies kept(f, t0, x) by {
        assert(line_ok(b, f, r, x));
    }
    assert(new_lines_fit(b, f, r, s, t0, c, nl));
    lemma_row_step(b, f, r, s, s, w0, h0, c, nl);
    assert forall|w: int, h: int| #[trigger] cell_step(b, pos, s, s, e, 0, 0, 0, w, h) by {}
}

/// The board around the new stone, before and after it is put.
proof fn lemma_near(b: Seq<u8>, f: int, pos: BoardPos, c: int)
    requires
        board_ok(b),
        0 <= f < 4,
        pos.on_board(),
        at(b, pos.w as int, pos.h as int) == 0,
        is_stone(c),
    ensures
        ({
            let b2 = put(b, pos.w as int, pos.h as int, c);
            let r = row_of(f, pos.w as int, pos.h as int);
            let t0 = along(f, pos.w as int, pos.h as int);
            &&& at_rt(b, f, r, t0) == 0
            &&& at_rt(b2, f, r, t0) == c
            &&& forall|t: int| t != t0 ==> #[trigger] at_rt(b2, f, r, t) == at_rt(b, f, r, t)
            &&& forall|t: int| #[trigger] at_rt(b, f, r, t) != wall() ==> at_rt(b, f, r, t) <= 2
        }),
{
    let w0 = pos.w as int;
    let h0 = pos.h as int;
    let r = row_of(f, w0, h0);
    let t0 = along(f, w0, h0);
    lemma_at_rt_put_all(b, w0, h0, c);
    assert(b[w0 * 4 + h0] == 0);
    assert forall|t: int| #[trigger] at_rt(b, f, r, t) != wall() implies at_rt(b, f, r, t) <= 2 by {
        let w = cell_w(f, r, t);
        let h = cell_h(f, r, t);
        if 0 <= w < 4 && 0 <= h < 4 {
            assert(b[w * 4 + h] <= 2);
        }
    }
}

/// What the matching tells about the line whose `p1` end is the new stone.
proof fn lemma_p1_facts(b: Seq<u8>, f: int, pos: BoardPos, s: Seq<Line>, i1: int)
    requires
        step_pre(b, f, pos, s),
        0 <= i1 < s.len(),
        s[i1].p1 == pos,
        forall|x: Line| s.contains(x) ==> x.p2 != pos,
    ensures
        ({
            let r = row_of(f, pos.w as int, pos.h as int);
            let t0 = along(f, pos.w as int, pos.h as int);
            let l = s[i1];
            let n = l.n();
            &&& line_ok(b, f, r, l)
            &&& l.a1(f) == t0
            &&& run_down(b, f, r, t0, n, l.col())
            &&& is_stone(l.col())
            &&& l.both() ==> l.a2(f) == t0 - n - 1 && at_rt(b, f, r, l.a2(f)) == 0
            &&& !l.both() ==> at_rt(b, f, r, l.a2(f)) != 0 && blocks(at_rt(b, f, r, t0 - n - 1), l.col())
            &&& !is_stone(at_rt(b, f, r, t0 + 1))
            &&& forall|x: Line| s.contains(x) && x.a1(f) == t0 ==> x == l
            &&& forall|x: Line| s.contains(x) ==> x.a2(f) != t0
            &&& forall|x: Line| s.contains(x) && x != l ==> kept(f, t0, x)
        }),
{
    reveal(row_good);
    reveal(step_pre);
    reveal(p1_case);
    let r = row_of(f, pos.w as int, pos.h as int);
    let t0 = along(f, pos.w as int, pos.h as int);
    let l = s[i1];
    assert(s.contains(l));
    lemma_no_end_neighbors(b, f, pos, s);
    assert(at_rt(b, f, r, t0) == 0);
    assert forall|x: Line| s.contains(x) implies x.a2(f) != t0 by {
        assert(line_ok(b, f, r, x));
    }
    assert forall|x: Line| s.contains(x) && x.a1(f) == t0 implies x == l by {}
}

/// `l` with a new `p1` end, activity and length.
pub open spec fn with_p1(l: Line, p: BoardPos, active: LineActive, len: int) -> Line {
    Line { p2: l.p2, p1: p, active, sign: l.sign, len: len as u8 }
}

/// `l` with a new `p2` end, activity and length.
pub open spec fn with_p2(l: Line, p: BoardPos, active: LineActive, len: int) -> Line {
    Line { p2: p, p1: l.p1, active, sign: l.sign, len: len as u8 }
}

/// The contents of `s.update(i, y)` when only `s[i]` of `s` touches the new stone.
proof fn lemma_update_contents(f: int, t0: int, s: Seq<Line>, i: int, y: Line)
    requires
        0 <= i < s.len(),
        s.no_duplicates(),
        forall|x: Line| s.contains(x) && x != s[i] ==> kept(f, t0, x),
        !kept(f, t0, s[i]),
        forall|x: Line| s.contains(x) && kept(f, t0, x) ==> x != y,
    ensures
        forall|x: Line| #[trigger]
            s.update(i, y).contains(x) <==> (s.contains(x) && kept(f, t0, x)) || seq![y].contains(x),
        s.update(i, y).no_duplicates(),
{
    lemma_contains_update(s, i, y);
    let nl = seq![y];
    assert(nl[0] == y);
    assert forall|x: Line| nl.contains(x) <==> x == y by {}
}

/// The contents of `s.remove(i)` when only `s[i]` of `s` touches the new stone.
proof fn lemma_remove_contents(f: int, t0: int, s: Seq<Line>, i: int)
    requires
        0 <= i < s.len(),
        s.no_duplicates(),
        forall|x: Line| s.contains(x) && x != s[i] ==> kept(f, t0, x),
        !kept(f, t0, s[i]),
    ensures
        forall|x: Line| #[trigger]
            s.remove(i).contains(x) <==> (s.contains(x) && kept(f, t0, x)) || Seq::<Line>::empty().contains(x),
        s.remove(i).no_duplicates(),
{
    lemma_contains_remove(s, i);
}

proof fn lemma_p1_grow_one_value_at(
    b: Seq<u8>,
    pos: BoardPos,
    s: Seq<Line>,
    i1: int,
    y: Line,
    p: BoardPos,
    e: Seq<(usize, i16)>,
    w: int,
    h: int,
)
    requires
        b.len() == 16,
        pos.on_board(),
        p.on_board(),
        p != pos,
        at(b, p.w as int, p.h as int) == 0,
        0 <= i1 < s.len(),
        s[i1].p1 == pos,
        at(b, s[i1].p2.w as int, s[i1].p2.h as int) != 0,
        y == with_p1(s[i1], p, LineActive::ONE, s[i1].n() + 1),
        1 <= s[i1].n() <= 2,
        e == seq![(p.index() as usize, sq(s[i1].n() + 1) as i16)],
    ensures
        cell_step(b, pos, s, s.update(i1, y), e, 0, 0, 0, w, h),
        change_sum(e, pos.w * 4 + pos.h) == 0,
{
    lemma_row_sum_update(s, i1, y, w, h);
    lemma_change_sum_small(e, w * 4 + h);
    lemma_change_sum_small(e, pos.w * 4 + pos.h);
    lemma_sq_small();
}

/// A line of the same player, open at its `p1` end only, grows by the new stone.
#[verifier::rlimit(60)]
proof fn lemma_p1_grow_one(
    b: Seq<u8>,
    f: int,
    pos: BoardPos,
    sign: bool,
    s: Seq<Line>,
    i1: int,
    p: BoardPos,
)
    requires
        step_pre(b, f, pos, s),
        0 <= i1 < s.len(),
        s[i1].p1 == pos,
        forall|x: Line| s.contains(x) ==> x.p2 != pos,
        s[i1].sign == sign,
        s[i1].len < 3,
        !s[i1].both(),
        step_up(f, pos, p),
        p.on_board(),
    ensures
        ({
            let c = color(sign);
            let b2 = put(b, pos.w as int, pos.h as int, c);
            let r = row_of(f, pos.w as int, pos.h as int);
            let l = s[i1];
            let y = with_p1(l, p, LineActive::ONE, l.n() + 1);
            let e = seq![(p.index() as usize, sq(l.n() + 1) as i16)];
            &&& !four_through(b2, f, r, along(f, pos.w as int, pos.h as int), c)
            &&& row_good(b2, f, r, s.update(i1, y))
            &&& changes_small(e)
            &&& values_step(b, pos, s, s.update(i1, y), e, 0, 0, 0)
        }),
{
    reveal(new_lines_fit);
    reveal(row_good);
    reveal(step_pre);
    reveal(p1_case);
    let c = color(sign);
    let w0 = pos.w as int;
    let h0 = pos.h as int;
    let b2 = put(b, w0, h0, c);
    let r = row_of(f, w0, h0);
    let t0 = along(f, w0, h0);
    let l = s[i1];
    let n = l.n();
    let y = with_p1(l, p, LineActive::ONE, n + 1);
    let e = seq![(p.index() as usize, sq(n + 1) as i16)];
    let s2 = s.update(i1, y);
    lemma_p1_facts(b, f, pos, s, i1);
    lemma_near(b, f, pos, c);
    assert(at_rt(b, f, r, t0 + 1) == at(b, p.w as int, p.h as int));
    assert(at_rt(b, f, r, t0 + 1) == 0);
    assert(y.a1(f) == t0 + 1);
    assert(at_rt(b2, f, r, t0 - n - 1) == at_rt(b, f, r, t0 - n - 1));
    assert(line_ok(b2, f, r, y));
    let nl = seq![y];
    assert(nl[0] == y);
    assert forall|x: Line| nl.contains(x) implies x == y by {}
    assert(new_lines_fit(b, f, r, s, t0, c, nl));
    lemma_new_not_kept(b, f, r, s, w0, h0, c, nl);
    lemma_update_contents(f, t0, s, i1, y);
    lemma_row_step(b, f, r, s, s2, w0, h0, c, nl);
    lemma_sq_small();
    assert forall|w: int, h: int| #[trigger] cell_step(b, pos, s, s2, e, 0, 0, 0, w, h) by {
        lemma_p1_grow_one_value_at(b, pos, s, i1, y, p, e, w, h);
    }
    lemma_p1_grow_one_value_at(b, pos, s, i1, y, p, e, 0, 0);
}

/// The contents of `s.update(i, y).push(z)` when only `s[i]` of `s` touches the new stone.
proof fn lemma_update_push_contents(f: int, t0: int, s: Seq<Line>, i: int, y: Line, z: Line)
    requires
        0 <= i < s.len(),
        s.no_duplicates(),
        forall|x: Line| s.contains(x) && x != s[i] ==> kept(f, t0, x),
        !kept(f, t0, s[i]),
        forall|x: Line| s.contains(x) && kept(f, t0, x) ==> x != y && x != z,
        y != z,
    ensures
        forall|x: Line| #[trigger]
            s.update(i, y).push(z).contains(x) <==> (s.contains(x) && kept(f, t0, x)) || seq![
                y,
                z,
            ].contains(x),
        s.update(i, y).push(z).no_duplicates(),
{
    lemma_contains_update(s, i, y);
    lemma_contains_push(s.update(i, y), z);
    let nl = seq![y, z];
    assert(nl[0] == y && nl[1] == z);
    assert forall|x: Line| nl.contains(x) <==> x == y || x == z by {}
}

/// The contents of `s.remove(i).push(z)` when only `s[i]` of `s` touches the new stone.
proof fn lemma_remove_push_contents(f: int, t0: int, s: Seq<Line>, i: int, z: Line)
    requires
        0 <= i < s.len(),
        s.no_duplicates(),
        forall|x: Line| s.contains(x) && x != s[i] ==> kept(f, t0, x),
        !kept(f, t0, s[i]),
        forall|x: Line| s.contains(x) && kept(f, t0, x) ==> x != z,
    ensures
        forall|x: Line| #[trigger]
            s.remove(i).push(z).contains(x) <==> (s.contains(x) && kept(f, t0, x)) || seq![z].contains(x),
        s.remove(i).push(z).no_duplicates(),
{
    lemma_contains_remove(s, i);
    lemma_contains_push(s.remove(i), z);
    let nl = seq![z];
    assert(nl[0] == z);
    assert forall|x: Line| nl.contains(x) <==> x == z by {}
}

/// Common requirements of the cases where the new stone is at the `p1` end of line `i1`.
#[verifier::opaque]
pub open spec fn p1_case(b: Seq<u8>, f: int, pos: BoardPos, s: Seq<Line>, i1: int) -> bool {
    &&& step_pre(b, f, pos, s)
    &&& 0 <= i1 < s.len()
    &&& s[i1].p1 == pos
    &&& forall|x: Line| s.contains(x) ==> x.p2 != pos
}

/// The stone completes `WIN_LEN` in a row with a line of three at its `p1` end.
proof fn lemma_p1_win(b: Seq<u8>, f: int, pos: BoardPos, sign: bool, s: Seq<Line>, i1: int)
    requires
        p1_case(b, f, pos, s, i1),
        s[i1].sign == sign,
        s[i1].len == 3,
    ensures
        four_through(
            put(b, pos.w as int, pos.h as int, color(sign)),
            f,
            row_of(f, pos.w as int, pos.h as int),
            along(f, pos.w as int, pos.h as int),
            color(sign),
        ),
{
    reveal(row_good);
    reveal(step_pre);
    reveal(p1_case);
    let c = color(sign);
    let r = row_of(f, pos.w as int, pos.h as int);
    let t0 = along(f, pos.w as int, pos.h as int);
    lemma_p1_facts(b, f, pos, s, i1);
    lemma_near(b, f, pos, c);
    assert(four_at(put(b, pos.w as int, pos.h as int, c), f, r, t0 - 3, c));
}

/// A line of the same player, open at its `p1` end only, with no room beyond the stone.
#[verifier::rlimit(60)]
proof fn lemma_p1_dead(b: Seq<u8>, f: int, pos: BoardPos, sign: bool, s: Seq<Line>, i1: int, p: BoardPos)
    requires
        p1_case(b, f, pos, s, i1),
        s[i1].sign == sign,
        s[i1].len < 3,
        !s[i1].both(),
        step_up(f, pos, p),
        !p.on_board(),
    ensures
        ({
            let c = color(sign);
            let b2 = put(b, pos.w as int, pos.h as int, c);
            let r = row_of(f, pos.w as int, pos.h as int);
            let e = Seq::<(usize, i16)>::empty();
            &&& !four_through(b2, f, r, along(f, pos.w as int, pos.h as int), c)
            &&& row_good(b2, f, r, s.remove(i1))
            &&& changes_small(e)
            &&& values_step(b, pos, s, s.remove(i1), e, 0, 0, 0)
        }),
{
    reveal(new_lines_fit);
    reveal(row_good);
    reveal(step_pre);
    reveal(p1_case);
    let c = color(sign);
    let w0 = pos.w as int;
    let h0 = pos.h as int;
    let b2 = put(b, w0, h0, c);
    let r = row_of(f, w0, h0);
    let t0 = along(f, w0, h0);
    let l = s[i1];
    let n = l.n();
    let e = Seq::<(usize, i16)>::empty();
    let s2 = s.remove(i1);
    lemma_p1_facts(b, f, pos, s, i1);
    lemma_near(b, f, pos, c);
    assert(at_rt(b, f, r, t0 + 1) == at(b, p.w as int, p.h as int));
    let nl = Seq::<Line>::empty();
    assert(new_lines_fit(b, f, r, s, t0, c, nl));
    lemma_remove_contents(f, t0, s, i1);
    lemma_row_step(b, f, r, s, s2, w0, h0, c, nl);
    assert forall|w: int, h: int| #[trigger] cell_step(b, pos, s, s2, e, 0, 0, 0, w, h) by {
        lemma_row_sum_remove(s, i1, w, h);
    }
}

proof fn lemma_p1_grow_both_value_at(
    b: Seq<u8>,
    pos: BoardPos,
    s: Seq<Line>,
    i1: int,
    y: Line,
    p: BoardPos,
    e: Seq<(usize, i16)>,
    w: int,
    h: int,
)
    requires
        b.len() == 16,
        pos.on_board(),
        p.on_board(),
        p != pos,
        at(b, p.w as int, p.h as int) == 0,
        0 <= i1 < s.len(),
        s[i1].p1 == pos,
        s[i1].p2 != p,
        s[i1].p2 != pos,
        s[i1].both(),
        s[i1].p2.w * 4 + s[i1].p2.h == s[i1].p2.index(),
        at(b, s[i1].p2.w as int, s[i1].p2.h as int) == 0,
        s[i1].p2.on_board(),
        y == with_p1(s[i1], p, LineActive::BOTH, s[i1].n() + 1),
        1 <= s[i1].n() <= 2,
        e == seq![
            (s[i1].p2.index() as usize, (-2 * sq(s[i1].n())) as i16),
            (p.index() as usize, (2 * sq(s[i1].n() + 1)) as i16),
            (s[i1].p2.index() as usize, (2 * sq(s[i1].n() + 1)) as i16),
        ],
    ensures
        cell_step(b, pos, s, s.update(i1, y), e, 0, 0, 0, w, h),
        change_sum(e, pos.w * 4 + pos.h) == 0,
{
    lemma_row_sum_update(s, i1, y, w, h);
    lemma_change_sum_small(e, w * 4 + h);
    lemma_change_sum_small(e, pos.w * 4 + pos.h);
    lemma_sq_small();
}

/// A line of the same player, open at both ends, grows by the new stone and stays open at
/// both ends.
#[verifier::rlimit(60)]
proof fn lemma_p1_grow_both(
    b: Seq<u8>,
    f: int,
    pos: BoardPos,
    sign: bool,
    s: Seq<Line>,
    i1: int,
    p: BoardPos,
)
    requires
        p1_case(b, f, pos, s, i1),
        s[i1].sign == sign,
        s[i1].len < 3,
        s[i1].both(),
        step_up(f, pos, p),
        p.on_board(),
    ensures
        ({
            let c = color(sign);
            let b2 = put(b, pos.w as int, pos.h as int, c);
            let r = row_of(f, pos.w as int, pos.h as int);
            let l = s[i1];
            let y = with_p1(l, p, LineActive::BOTH, l.n() + 1);
            let e = seq![
                (l.p2.index() as usize, (-2 * sq(l.n())) as i16),
                (p.index() as usize, (2 * sq(l.n() + 1)) as i16),
                (l.p2.index() as usize, (2 * sq(l.n() + 1)) as i16),
            ];
            &&& l.p2.on_board()
            &&& !four_through(b2, f, r, along(f, pos.w as int, pos.h as int), c)
            &&& row_good(b2, f, r, s.update(i1, y))
            &&& changes_small(e)
            &&& values_step(b, pos, s, s.update(i1, y), e, 0, 0, 0)
        }),
{
    reveal(new_lines_fit);
    reveal(row_good);
    reveal(step_pre);
    reveal(p1_case);
    let c = color(sign);
    let w0 = pos.w as int;
    let h0 = pos.h as int;
    let b2 = put(b, w0, h0, c);
    let r = row_of(f, w0, h0);
    let t0 = along(f, w0, h0);
    let l = s[i1];
    let n = l.n();
    let y = with_p1(l, p, LineActive::BOTH, n + 1);
    let e = seq![
        (l.p2.index() as usize, (-2 * sq(n)) as i16),
        (p.index() as usize, (2 * sq(n + 1)) as i16),
        (l.p2.index() as usize, (2 * sq(n + 1)) as i16),
    ];
    let s2 = s.update(i1, y);
    lemma_p1_facts(b, f, pos, s, i1);
    lemma_near(b, f, pos, c);
    assert(at_rt(b, f, r, t0 + 1) == at(b, p.w as int, p.h as int));
    assert(at_rt(b, f, r, t0 + 1) == 0);
    assert(at_rt(b, f, r, l.a2(f)) == at(b, l.p2.w as int, l.p2.h as int));
    assert(y.a1(f) == t0 + 1);
    assert(line_ok(b2, f, r, y));
    let nl = seq![y];
    assert(nl[0] == y);
    assert forall|x: Line| nl.contains(x) implies x == y by {}
    assert(s.contains(l));
    assert(new_lines_fit(b, f, r, s, t0, c, nl));
    lemma_new_not_kept(b, f, r, s, w0, h0, c, nl);
    lemma_update_contents(f, t0, s, i1, y);
    lemma_row_step(b, f, r, s, s2, w0, h0, c, nl);
    lemma_sq_small();
    assert forall|w: int, h: int| #[trigger] cell_step(b, pos, s, s2, e, 0, 0, 0, w, h) by {
        lemma_p1_grow_both_value_at(b, pos, s, i1, y, p, e, w, h);
    }
    lemma_p1_grow_both_value_at(b, pos, s, i1, y, p, e, 0, 0);
}

proof fn lemma_p1_grow_closed_value_at(
    b: Seq<u8>,
    pos: BoardPos,
    s: Seq<Line>,
    i1: int,
    y: Line,
    e: Seq<(usize, i16)>,
    w: int,
    h: int,
)
    requires
        b.len() == 16,
        pos.on_board(),
        !y.p1.on_board(),
        0 <= i1 < s.len(),
        s[i1].p1 == pos,
        s[i1].p2 != pos,
        s[i1].both(),
        at(b, s[i1].p2.w as int, s[i1].p2.h as int) == 0,
        s[i1].p2.on_board(),
        y == with_p1(s[i1], y.p1, LineActive::ONE, s[i1].n() + 1),
        1 <= s[i1].n() <= 2,
        e == seq![
            (s[i1].p2.index() as usize, (-2 * sq(s[i1].n())) as i16),
            (s[i1].p2.index() as usize, sq(s[i1].n() + 1) as i16),
        ],
    ensures
        cell_step(b, pos, s, s.update(i1, y), e, 0, 0, 0, w, h),
        change_sum(e, pos.w * 4 + pos.h) == 0,
{
    lemma_row_sum_update(s, i1, y, w, h);
    lemma_change_sum_small(e, w * 4 + h);
    lemma_change_sum_small(e, pos.w * 4 + pos.h);
    lemma_sq_small();
}

/// A line of the same player, open at both ends, grows by the new stone up to the edge of
/// the board and stays open at its `p2` end only.
#[verifier::rlimit(60)]
proof fn lemma_p1_grow_closed(
    b: Seq<u8>,
    f: int,
    pos: BoardPos,
    sign: bool,
    s: Seq<Line>,
    i1: int,
    p: BoardPos,
)
    requires
        p1_case(b, f, pos, s, i1),
        s[i1].sign == sign,
        s[i1].len < 3,
        s[i1].both(),
        step_up(f, pos, p),
        !p.on_board(),
    ensures
        ({
            let c = color(sign);
            let b2 = put(b, pos.w as int, pos.h as int, c);
            let r = row_of(f, pos.w as int, pos.h as int);
            let l = s[i1];
            let y = with_p1(l, p, LineActive::ONE, l.n() + 1);
            let e = seq![
                (l.p2.index() as usize, (-2 * sq(l.n())) as i16),
                (l.p2.index() as usize, sq(l.n() + 1) as i16),
            ];
            &&& l.p2.on_board()
            &&& !four_through(b2, f, r, along(f, pos.w as int, pos.h as int), c)
            &&& row_good(b2, f, r, s.update(i1, y))
            &&& changes_small(e)
            &&& values_step(b, pos, s, s.update(i1, y), e, 0, 0, 0)
        }),
{
    reveal(new_lines_fit);
    reveal(row_good);
    reveal(step_pre);
    reveal(p1_case);
    let c = color(sign);
    let w0 = pos.w as int;
    let h0 = pos.h as int;
    let b2 = put(b, w0, h0, c);
    let r = row_of(f, w0, h0);
    let t0 = along(f, w0, h0);
    let l = s[i1];
    let n = l.n();
    let y = with_p1(l, p, LineActive::ONE, n + 1);
    let e = seq![
        (l.p2.index() as usize, (-2 * sq(n)) as i16),
        (l.p2.index() as usize, sq(n + 1) as i16),
    ];
    let s2 = s.update(i1, y);
    lemma_p1_facts(b, f, pos, s, i1);
    lemma_near(b, f, pos, c);
    assert(at_rt(b, f, r, t0 + 1) == at(b, p.w as int, p.h as int));
    assert(at_rt(b, f, r, l.a2(f)) == at(b, l.p2.w as int, l.p2.h as int));
    assert(y.a1(f) == t0 + 1);
    assert(line_ok(b2, f, r, y));
    let nl = seq![y];
    assert(nl[0] == y);
    assert forall|x: Line| nl.contains(x) implies x == y by {}
    assert(s.contains(l));
    assert(new_lines_fit(b, f, r, s, t0, c, nl));
    lemma_new_not_kept(b, f, r, s, w0, h0, c, nl);
    lemma_update_contents(f, t0, s, i1, y);
    lemma_row_step(b, f, r, s, s2, w0, h0, c, nl);
    lemma_sq_small();
    assert forall|w: int, h: int| #[trigger] cell_step(b, pos, s, s2, e, 0, 0, 0, w, h) by {
        lemma_p1_grow_closed_value_at(b, pos, s, i1, y, e, w, h);
    }
    lemma_p1_grow_closed_value_at(b, pos, s, i1, y, e, 0, 0);
}

/// The line a stone starts on its `p1` side when the other player's run lies on its `p2`
/// side.
pub open spec fn start_up(p: BoardPos, q: BoardPos, sign: bool) -> Line {
    Line { p1: p, p2: q, active: LineActive::ONE, sign, len: 1 }
}

/// The changes and row when the other player's line at `p1` is cut by the stone.
pub open spec fn cut_p1_row(s: Seq<Line>, i1: int, p: BoardPos, q: BoardPos, sign: bool) -> Seq<Line> {
    let l = s[i1];
    let s1 = if l.both() {
        s.update(i1, with_p1(l, l.p1, LineActive::ONE, l.n()))
    } else {
        s.remove(i1)
    };
    if p.on_board() {
        s1.push(start_up(p, q, sign))
    } else {
        s1
    }
}

pub open spec fn cut_p1_changes(l: Line, p: BoardPos) -> Seq<(usize, i16)> {
    (if l.both() {
        seq![(l.p2.index() as usize, (-sq(l.n())) as i16)]
    } else {
        Seq::<(usize, i16)>::empty()
    }) + (if p.on_board() {
        seq![(p.index() as usize, 1i16)]
    } else {
        Seq::<(usize, i16)>::empty()
    })
}

proof fn lemma_p1_cut_value_at(
    b: Seq<u8>,
    pos: BoardPos,
    s: Seq<Line>,
    i1: int,
    p: BoardPos,
    q: BoardPos,
    sign: bool,
    w: int,
    h: int,
)
    requires
        b.len() == 16,
        pos.on_board(),
        p != pos,
        p.on_board() ==> at(b, p.w as int, p.h as int) == 0,
        at(b, q.w as int, q.h as int) != 0,
        0 <= i1 < s.len(),
        s[i1].p1 == pos,
        s[i1].p2 != pos,
        p.on_board() ==> s[i1].p2 != p,
        s[i1].both() ==> at(b, s[i1].p2.w as int, s[i1].p2.h as int) == 0 && s[i1].p2.on_board(),
        !s[i1].both() ==> at(b, s[i1].p2.w as int, s[i1].p2.h as int) != 0,
        1 <= s[i1].n() <= 3,
    ensures
        cell_step(b, pos, s, cut_p1_row(s, i1, p, q, sign), cut_p1_changes(s[i1], p), 0, 0, 0, w, h),
        change_sum(cut_p1_changes(s[i1], p), pos.w * 4 + pos.h) == 0,
{
    let l = s[i1];
    let y1 = with_p1(l, l.p1, LineActive::ONE, l.n());
    let z = start_up(p, q, sign);
    let e = cut_p1_changes(l, p);
    if l.both() {
        lemma_row_sum_update(s, i1, y1, w, h);
        if p.on_board() {
            lemma_row_sum_push(s.update(i1, y1), z, w, h);
        }
    } else {
        lemma_row_sum_remove(s, i1, w, h);
        if p.on_board() {
            lemma_row_sum_push(s.remove(i1), z, w, h);
        }
    }
    assert(e.len() <= 2);
    lemma_change_sum_small(e, w * 4 + h);
    lemma_change_sum_small(e, pos.w * 4 + pos.h);
    lemma_sq_small();
}

/// The other player's line at the stone's `p1` side loses that end; the stone starts a line
/// of its own on its free `p1` side, if that lies on the board.
#[verifier::rlimit(100)]
proof fn lemma_p1_cut(
    b: Seq<u8>,
    f: int,
    pos: BoardPos,
    sign: bool,
    s: Seq<Line>,
    i1: int,
    p: BoardPos,
    q: BoardPos,
)
    requires
        p1_case(b, f, pos, s, i1),
        s[i1].sign != sign,
        step_up(f, pos, p),
        step_down(f, pos, q),
    ensures
        ({
            let c = color(sign);
            let b2 = put(b, pos.w as int, pos.h as int, c);
            let r = row_of(f, pos.w as int, pos.h as int);
            let l = s[i1];
            let e = cut_p1_changes(l, p);
            &&& l.both() ==> l.p2.on_board()
            &&& !four_through(b2, f, r, along(f, pos.w as int, pos.h as int), c)
            &&& row_good(b2, f, r, cut_p1_row(s, i1, p, q, sign))
            &&& changes_small(e)
            &&& values_step(b, pos, s, cut_p1_row(s, i1, p, q, sign), e, 0, 0, 0)
        }),
{
    reveal(new_lines_fit);
    reveal(row_good);
    reveal(step_pre);
    reveal(p1_case);
    let c = color(sign);
    let w0 = pos.w as int;
    let h0 = pos.h as int;
    let b2 = put(b, w0, h0, c);
    let r = row_of(f, w0, h0);
    let t0 = along(f, w0, h0);
    let l = s[i1];
    let n = l.n();
    let y1 = with_p1(l, l.p1, LineActive::ONE, n);
    let z = start_up(p, q, sign);
    let e = cut_p1_changes(l, p);
    let s2 = cut_p1_row(s, i1, p, q, sign);
    lemma_p1_facts(b, f, pos, s, i1);
    lemma_near(b, f, pos, c);
    assert(at_rt(b, f, r, t0 + 1) == at(b, p.w as int, p.h as int));
    assert(at_rt(b, f, r, t0 - 1) == at(b, q.w as int, q.h as int));
    assert(at_rt(b, f, r, l.a2(f)) == at(b, l.p2.w as int, l.p2.h as int));
    assert(z.a1(f) == t0 + 1 && z.a2(f) == t0 - 1);
    assert(s.contains(l));
    if l.both() {
        assert(line_ok(b2, f, r, y1));
    }
    if p.on_board() {
        assert(at_rt(b, f, r, t0 + 1) == 0);
        assert(line_ok(b2, f, r, z));
    }
    let nl = if l.both() {
        if p.on_board() {
            seq![y1, z]
        } else {
            seq![y1]
        }
    } else {
        if p.on_board() {
            seq![z]
        } else {
            Seq::<Line>::empty()
        }
    };
    assert forall|x: Line| nl.contains(x) implies (l.both() && x == y1) || (p.on_board() && x == z) by {
        let k = choose|k: int| 0 <= k < nl.len() && nl[k] == x;
    }
    if l.both() {
        assert(nl[0] == y1);
    }
    if p.on_board() {
        assert(nl[nl.len() - 1] == z);
    }
    assert(new_lines_fit(b, f, r, s, t0, c, nl));
    lemma_new_not_kept(b, f, r, s, w0, h0, c, nl);
    if l.both() {
        if p.on_board() {
            lemma_update_push_contents(f, t0, s, i1, y1, z);
        } else {
            lemma_update_contents(f, t0, s, i1, y1);
        }
    } else {
        if p.on_board() {
            lemma_remove_push_contents(f, t0, s, i1, z);
        } else {
            lemma_remove_contents(f, t0, s, i1);
        }
    }
    lemma_row_step(b, f, r, s, s2, w0, h0, c, nl);
    lemma_sq_small();
    assert forall|w: int, h: int| #[trigger] cell_step(b, pos, s, s2, e, 0, 0, 0, w, h) by {
        lemma_p1_cut_value_at(b, pos, s, i1, p, q, sign, w, h);
    }
    lemma_p1_cut_value_at(b, pos, s, i1, p, q, sign, 0, 0);
}

/// The plain facts inside `step_pre`.
proof fn lemma_pre_basics(b: Seq<u8>, f: int, pos: BoardPos, s: Seq<Line>)
    requires
        step_pre(b, f, pos, s),
    ensures
        board_ok(b),
        no_four(b),
        0 <= f < 4,
        pos.on_board(),
        at(b, pos.w as int, pos.h as int) == 0,
        row_good(b, f, row_of(f, pos.w as int, pos.h as int), s),
{
    reveal(step_pre);
}

/// The plain facts inside `p1_case`.
proof fn lemma_p1_case_basics(b: Seq<u8>, f: int, pos: BoardPos, s: Seq<Line>, i1: int)
    requires
        p1_case(b, f, pos, s, i1),
    ensures
        step_pre(b, f, pos, s),
        0 <= i1 < s.len(),
        s[i1].p1 == pos,
        forall|x: Line| s.contains(x) ==> x.p2 != pos,
{
    reveal(p1_case);
}

/// Common requirements of the cases where the new stone is at the `p2` end of line `i2`.
#[verifier::opaque]
pub open spec fn p2_case(b: Seq<u8>, f: int, pos: BoardPos, s: Seq<Line>, i2: int) -> bool {
    &&& step_pre(b, f, pos, s)
    &&& 0 <= i2 < s.len()
    &&& s[i2].p2 == pos
    &&& forall|x: Line| s.contains(x) ==> x.p1 != pos
}

/// The plain facts inside `p2_case`.
proof fn lemma_p2_case_basics(b: Seq<u8>, f: int, pos: BoardPos, s: Seq<Line>, i2: int)
    requires
        p2_case(b, f, pos, s, i2),
    ensures
        step_pre(b, f, pos, s),
        0 <= i2 < s.len(),
        s[i2].p2 == pos,
        forall|x: Line| s.contains(x) ==> x.p1 != pos,
{
    reveal(p2_case);
}

/// What the matching tells about the line whose `p2` end is the new stone.
proof fn lemma_p2_facts(b: Seq<u8>, f: int, pos: BoardPos, s: Seq<Line>, i2: int)
    requires
        p2_case(b, f, pos, s, i2),
    ensures
        ({
            let r = row_of(f, pos.w as int, pos.h as int);
            let t0 = along(f, pos.w as int, pos.h as int);
            let l = s[i2];
            let n = l.n();
            &&& line_ok(b, f, r, l)
            &&& l.a2(f) == t0
            &&& run_up(b, f, r, t0, n, l.col())
            &&& is_stone(l.col())
            &&& l.both() ==> l.a1(f) == t0 + n + 1 && at_rt(b, f, r, l.a1(f)) == 0
            &&& !l.both() ==> at_rt(b, f, r, l.a1(f)) != 0 && blocks(at_rt(b, f, r, t0 + n + 1), l.col())
            &&& !is_stone(at_rt(b, f, r, t0 - 1))
            &&& forall|x: Line| s.contains(x) && x.a2(f) == t0 ==> x == l
            &&& forall|x: Line| s.contains(x) ==> x.a1(f) != t0
            &&& forall|x: Line| s.contains(x) && x != l ==> kept(f, t0, x)
        }),
{
    reveal(row_good);
    reveal(step_pre);
    reveal(p2_case);
    let r = row_of(f, pos.w as int, pos.h as int);
    let t0 = along(f, pos.w as int, pos.h as int);
    let l = s[i2];
    assert(s.contains(l));
    lemma_no_end_neighbors(b, f, pos, s);
    assert(at_rt(b, f, r, t0) == 0);
    assert forall|x: Line| s.contains(x) implies x.a1(f) != t0 by {
        assert(line_ok(b, f, r, x));
    }
    assert forall|x: Line| s.contains(x) && x.a2(f) == t0 implies x == l by {}
}

/// The stone completes `WIN_LEN` in a row with a line of three at its `p2` end.
proof fn lemma_p2_win(b: Seq<u8>, f: int, pos: BoardPos, sign: bool, s: Seq<Line>, i2: int)
    requires
        p2_case(b, f, pos, s, i2),
        s[i2].sign == sign,
        s[i2].len == 3,
    ensures
        four_through(
            put(b, pos.w as int, pos.h as int, color(sign)),
            f,
            row_of(f, pos.w as int, pos.h as int),
            along(f, pos.w as int, pos.h as int),
            color(sign),
        ),
{
    reveal(p2_case);
    reveal(step_pre);
    let c = color(sign);
    let r = row_of(f, pos.w as int, pos.h as int);
    let t0 = along(f, pos.w as int, pos.h as int);
    lemma_p2_facts(b, f, pos, s, i2);
    lemma_near(b, f, pos, c);
    assert(four_at(put(b, pos.w as int, pos.h as int, c), f, r, t0, c));
}

/// A line of the same player, open at its `p2` end only, with no room beyond the stone.
#[verifier::rlimit(60)]
proof fn lemma_p2_dead(b: Seq<u8>, f: int, pos: BoardPos, sign: bool, s: Seq<Line>, i2: int, p: BoardPos)
    requires
        p2_case(b, f, pos, s, i2),
        s[i2].sign == sign,
        s[i2].len < 3,
        !s[i2].both(),
        step_down(f, pos, p),
        !p.on_board(),
    ensures
        ({
            let c = color(sign);
            let b2 = put(b, pos.w as int, pos.h as int, c);
            let r = row_of(f, pos.w as int, pos.h as int);
            &&& !four_through(b2, f, r, along(f, pos.w as int, pos.h as int), c)
            &&& row_good(b2, f, r, s.remove(i2))
            &&& values_step(b, pos, s, s.remove(i2), Seq::<(usize, i16)>::empty(), 0, 0, 0)
        }),
{
    reveal(new_lines_fit);
    reveal(row_good);
    reveal(step_pre);
    reveal(p2_case);
    let c = color(sign);
    let w0 = pos.w as int;
    let h0 = pos.h as int;
    let r = row_of(f, w0, h0);
    let t0 = along(f, w0, h0);
    let e = Seq::<(usize, i16)>::empty();
    let s2 = s.remove(i2);
    lemma_p2_facts(b, f, pos, s, i2);
    lemma_near(b, f, pos, c);
    assert(at_rt(b, f, r, t0 - 1) == at(b, p.w as int, p.h as int));
    let nl = Seq::<Line>::empty();
    assert(new_lines_fit(b, f, r, s, t0, c, nl));
    lemma_remove_contents(f, t0, s, i2);
    lemma_row_step(b, f, r, s, s2, w0, h0, c, nl);
    assert forall|w: int, h: int| #[trigger] cell_step(b, pos, s, s2, e, 0, 0, 0, w, h) by {
        lemma_row_sum_remove(s, i2, w, h);
    }
}

proof fn lemma_p2_grow_one_value_at(
    b: Seq<u8>,
    pos: BoardPos,
    s: Seq<Line>,
    i2: int,
    y: Line,
    p: BoardPos,
    e: Seq<(usize, i16)>,
    w: int,
    h: int,
)
    requires
        b.len() == 16,
        pos.on_board(),
        p.on_board(),
        p != pos,
        at(b, p.w as int, p.h as int) == 0,
        0 <= i2 < s.len(),
        s[i2].p2 == pos,
        at(b, s[i2].p1.w as int, s[i2].p1.h as int) != 0,
        y == with_p2(s[i2], p, LineActive::ONE, s[i2].n() + 1),
        1 <= s[i2].n() <= 2,
        e == seq![(p.index() as usize, sq(s[i2].n() + 1) as i16)],
    ensures
        cell_step(b, pos, s, s.update(i2, y), e, 0, 0, 0, w, h),
        change_sum(e, pos.w * 4 + pos.h) == 0,
{
    lemma_row_sum_update(s, i2, y, w, h);
    lemma_change_sum_small(e, w * 4 + h);
    lemma_change_sum_small(e, pos.w * 4 + pos.h);
    lemma_sq_small();
}

/// A line of the same player, open at its `p2` end only, grows by the new stone.
#[verifier::rlimit(60)]
proof fn lemma_p2_grow_one(b: Seq<u8>, f: int, pos: BoardPos, sign: bool, s: Seq<Line>, i2: int, p: BoardPos)
    requires
        p2_case(b, f, pos, s, i2),
        s[i2].sign == sign,
        s[i2].len < 3,
        !s[i2].both(),
        step_down(f, pos, p),
        p.on_board(),
    ensures
        ({
            let c = color(sign);
            let b2 = put(b, pos.w as int, pos.h as int, c);
            let r = row_of(f, pos.w as int, pos.h as int);
            let l = s[i2];
            let y = with_p2(l, p, LineActive::ONE, l.n() + 1);
            let e = seq![(p.index() as usize, sq(l.n() + 1) as i16)];
            &&& !four_through(b2, f, r, along(f, pos.w as int, pos.h as int), c)
            &&& row_good(b2, f, r, s.update(i2, y))
            &&& changes_small(e)
            &&& values_step(b, pos, s, s.update(i2, y), e, 0, 0, 0)
        }),
{
    reveal(new_lines_fit);
    reveal(row_good);
    reveal(step_pre);
    reveal(p2_case);
    let c = color(sign);
    let w0 = pos.w as int;
    let h0 = pos.h as int;
    let b2 = put(b, w0, h0, c);
    let r = row_of(f, w0, h0);
    let t0 = along(f, w0, h0);
    let l = s[i2];
    let n = l.n();
    let y = with_p2(l, p, LineActive::ONE, n + 1);
    let e = seq![(p.index() as usize, sq(n + 1) as i16)];
    let s2 = s.update(i2, y);
    lemma_p2_facts(b, f, pos, s, i2);
    lemma_near(b, f, pos, c);
    assert(at_rt(b, f, r, t0 - 1) == at(b, p.w as int, p.h as int));
    assert(at_rt(b, f, r, t0 - 1) == 0);
    assert(y.a2(f) == t0 - 1);
    assert(at_rt(b2, f, r, t0 + n + 1) == at_rt(b, f, r, t0 + n + 1));
    assert(line_ok(b2, f, r, y));
    let nl = seq![y];
    assert(nl[0] == y);
    assert forall|x: Line| nl.contains(x) implies x == y by {}
    assert(new_lines_fit(b, f, r, s, t0, c, nl));
    lemma_new_not_kept(b, f, r, s, w0, h0, c, nl);
    lemma_update_contents(f, t0, s, i2, y);
    lemma_row_step(b, f, r, s, s2, w0, h0, c, nl);
    lemma_sq_small();
    assert forall|w: int, h: int| #[trigger] cell_step(b, pos, s, s2, e, 0, 0, 0, w, h) by {
        lemma_p2_grow_one_value_at(b, pos, s, i2, y, p, e, w, h);
    }
    lemma_p2_grow_one_value_at(b, pos, s, i2, y, p, e, 0, 0);
}

proof fn lemma_p2_grow_both_value_at(
    b: Seq<u8>,
    pos: BoardPos,
    s: Seq<Line>,
    i2: int,
    y: Line,
    p: BoardPos,
    e: Seq<(usize, i16)>,
    w: int,
    h: int,
)
    requires
        b.len() == 16,
        pos.on_board(),
        p.on_board(),
        p != pos,
        at(b, p.w as int, p.h as int) == 0,
        0 <= i2 < s.len(),
        s[i2].p2 == pos,
        s[i2].p1 != p,
        s[i2].p1 != pos,
        s[i2].both(),
        at(b, s[i2].p1.w as int, s[i2].p1.h as int) == 0,
        s[i2].p1.on_board(),
        y == with_p2(s[i2], p, LineActive::BOTH, s[i2].n() + 1),
        1 <= s[i2].n() <= 2,
        e == seq![
            (s[i2].p1.index() as usize, (-2 * sq(s[i2].n())) as i16),
            (s[i2].p1.index() as usize, (2 * sq(s[i2].n() + 1)) as i16),
            (p.index() as usize, (2 * sq(s[i2].n() + 1)) as i16),
        ],
    ensures
        cell_step(b, pos, s, s.update(i2, y), e, 0, 0, 0, w, h),
        change_sum(e, pos.w * 4 + pos.h) == 0,
{
    lemma_row_sum_update(s, i2, y, w, h);
    lemma_change_sum_small(e, w * 4 + h);
    lemma_change_sum_small(e, pos.w * 4 + pos.h);
    lemma_sq_small();
}

/// A line of the same player, open at both ends, grows by the new stone and stays open at
/// both ends.
#[verifier::rlimit(60)]
proof fn lemma_p2_grow_both(b: Seq<u8>, f: int, pos: BoardPos, sign: bool, s: Seq<Line>, i2: int, p: BoardPos)
    requires
        p2_case(b, f, pos, s, i2),
        s[i2].sign == sign,
        s[i2].len < 3,
        s[i2].both(),
        step_down(f, pos, p),
        p.on_board(),
    ensures
        ({
            let c = color(sign);
            let b2 = put(b, pos.w as int, pos.h as int, c);
            let r = row_of(f, pos.w as int, pos.h as int);
            let l = s[i2];
            let y = with_p2(l, p, LineActive::BOTH, l.n() + 1);
            let e = seq![
                (l.p1.index() as usize, (-2 * sq(l.n())) as i16),
                (l.p1.index() as usize, (2 * sq(l.n() + 1)) as i16),
                (p.index() as usize, (2 * sq(l.n() + 1)) as i16),
            ];
            &&& l.p1.on_board()
            &&& !four_through(b2, f, r, along(f, pos.w as int, pos.h as int), c)
            &&& row_good(b2, f, r, s.update(i2, y))
            &&& changes_small(e)
            &&& values_step(b, pos, s, s.update(i2, y), e, 0, 0, 0)
        }),
{
    reveal(new_lines_fit);
    reveal(row_good);
    reveal(step_pre);
    reveal(p2_case);
    let c = color(sign);
    let w0 = pos.w as int;
    let h0 = pos.h as int;
    let b2 = put(b, w0, h0, c);
    let r = row_of(f, w0, h0);
    let t0 = along(f, w0, h0);
    let l = s[i2];
    let n = l.n();
    let y = with_p2(l, p, LineActive::BOTH, n + 1);
    let e = seq![
        (l.p1.index() as usize, (-2 * sq(n)) as i16),
        (l.p1.index() as usize, (2 * sq(n + 1)) as i16),
        (p.index() as usize, (2 * sq(n + 1)) as i16),
    ];
    let s2 = s.update(i2, y);
    lemma_p2_facts(b, f, pos, s, i2);
    lemma_near(b, f, pos, c);
    assert(at_rt(b, f, r, t0 - 1) == at(b, p.w as int, p.h as int));
    assert(at_rt(b, f, r, t0 - 1) == 0);
    assert(at_rt(b, f, r, l.a1(f)) == at(b, l.p1.w as int, l.p1.h as int));
    assert(y.a2(f) == t0 - 1);
    assert(line_ok(b2, f, r, y));
    let nl = seq![y];
    assert(nl[0] == y);
    assert forall|x: Line| nl.contains(x) implies x == y by {}
    assert(s.contains(l));
    assert(new_lines_fit(b, f, r, s, t0, c, nl));
    lemma_new_not_kept(b, f, r, s, w0, h0, c, nl);
    lemma_update_contents(f, t0, s, i2, y);
    lemma_row_step(b, f, r, s, s2, w0, h0, c, nl);
    lemma_sq_small();
    assert forall|w: int, h: int| #[trigger] cell_step(b, pos, s, s2, e, 0, 0, 0, w, h) by {
        lemma_p2_grow_both_value_at(b, pos, s, i2, y, p, e, w, h);
    }
    lemma_p2_grow_both_value_at(b, pos, s, i2, y, p, e, 0, 0);
}

proof fn lemma_p2_grow_closed_value_at(
    b: Seq<u8>,
    pos: BoardPos,
    s: Seq<Line>,
    i2: int,
    y: Line,
    e: Seq<(usize, i16)>,
    w: int,
    h: int,
)
    requires
        b.len() == 16,
        pos.on_board(),
        !y.p2.on_board(),
        0 <= i2 < s.len(),
        s[i2].p2 == pos,
        s[i2].p1 != pos,
        s[i2].both(),
        at(b, s[i2].p1.w as int, s[i2].p1.h as int) == 0,
        s[i2].p1.on_board(),
        y == with_p2(s[i2], y.p2, LineActive::ONE, s[i2].n() + 1),
        1 <= s[i2].n() <= 2,
        e == seq![
            (s[i2].p1.index() as usize, (-2 * sq(s[i2].n())) as i16),
            (s[i2].p1.index() as usize, sq(s[i2].n() + 1) as i16),
        ],
    ensures
        cell_step(b, pos, s, s.update(i2, y), e, 0, 0, 0, w, h),
        change_sum(e, pos.w * 4 + pos.h) == 0,
{
    lemma_row_sum_update(s, i2, y, w, h);
    lemma_change_sum_small(e, w * 4 + h);
    lemma_change_sum_small(e, pos.w * 4 + pos.h);
    lemma_sq_small();
}

/// A line of the same player, open at both ends, grows by the new stone up to the edge of
/// the board and stays open at its `p1` end only.
#[verifier::rlimit(60)]
proof fn lemma_p2_grow_closed(b: Seq<u8>, f: int, pos: BoardPos, sign: bool, s: Seq<Line>, i2: int, p: BoardPos)
    requires
        p2_case(b, f, pos, s, i2),
        s[i2].sign == sign,
        s[i2].len < 3,
        s[i2].both(),
        step_down(f, pos, p),
        !p.on_board(),
    ensures
        ({
            let c = color(sign);
            let b2 = put(b, pos.w as int, pos.h as int, c);
            let r = row_of(f, pos.w as int, pos.h as int);
            let l = s[i2];
            let y = with_p2(l, p, LineActive::ONE, l.n() + 1);
            let e = seq![
                (l.p1.index() as usize, (-2 * sq(l.n())) as i16),
                (l.p1.index() as usize, sq(l.n() + 1) as i16),
            ];
            &&& l.p1.on_board()
            &&& !four_through(b2, f, r, along(f, pos.w as int, pos.h as int), c)
            &&& row_good(b2, f, r, s.update(i2, y))
            &&& changes_small(e)
            &&& values_step(b, pos, s, s.update(i2, y), e, 0, 0, 0)
        }),
{
    reveal(new_lines_fit);
    reveal(row_good);
    reveal(step_pre);
    reveal(p2_case);
    let c = color(sign);
    let w0 = pos.w as int;
    let h0 = pos.h as int;
    let b2 = put(b, w0, h0, c);
    let r = row_of(f, w0, h0);
    let t0 = along(f, w0, h0);
    let l = s[i2];
    let n = l.n();
    let y = with_p2(l, p, LineActive::ONE, n + 1);
    let e = seq![
        (l.p1.index() as usize, (-2 * sq(n)) as i16),
        (l.p1.index() as usize, sq(n + 1) as i16),
    ];
    let s2 = s.update(i2, y);
    lemma_p2_facts(b, f, pos, s, i2);
    lemma_near(b, f, pos, c);
    assert(at_rt(b, f, r, t0 - 1) == at(b, p.w as int, p.h as int));
    assert(at_rt(b, f, r, l.a1(f)) == at(b, l.p1.w as int, l.p1.h as int));
    assert(y.a2(f) == t0 - 1);
    assert(line_ok(b2, f, r, y));
    let nl = seq![y];
    assert(nl[0] == y);
    assert forall|x: Line| nl.contains(x) implies x == y by {}
    assert(s.contains(l));
    assert(new_lines_fit(b, f, r, s, t0, c, nl));
    lemma_new_not_kept(b, f, r, s, w0, h0, c, nl);
    lemma_update_contents(f, t0, s, i2, y);
    lemma_row_step(b, f, r, s, s2, w0, h0, c, nl);
    lemma_sq_small();
    assert forall|w: int, h: int| #[trigger] cell_step(b, pos, s, s2, e, 0, 0, 0, w, h) by {
        lemma_p2_grow_closed_value_at(b, pos, s, i2, y, e, w, h);
    }
    lemma_p2_grow_closed_value_at(b, pos, s, i2, y, e, 0, 0);
}

/// The line a stone starts on its `p2` side when the other player's run lies on its `p1`
/// side.
pub open spec fn start_down(q: BoardPos, p: BoardPos, sign: bool) -> Line {
    Line { p1: q, p2: p, active: LineActive::ONE, sign, len: 1 }
}

/// The row when the other player's line at `p2` is cut by the stone.
pub open spec fn cut_p2_row(s: Seq<Line>, i2: int, p: BoardPos, q: BoardPos, sign: bool) -> Seq<Line> {
    let l = s[i2];
    let s1 = if l.both() {
        s.update(i2, with_p2(l, l.p2, LineActive::ONE, l.n()))
    } else {
        s.remove(i2)
    };
    if p.on_board() {
        s1.push(start_down(q, p, sign))
    } else {
        s1
    }
}

/// The value changes when the other player's line at `p2` is cut by the stone: the
/// reduction of the line's value is aimed at its `p2` end, which is the stone itself.
pub open spec fn cut_p2_changes(l: Line, p: BoardPos) -> Seq<(usize, i16)> {
    (if l.both() {
        seq![(l.p2.index() as usize, (-sq(l.n())) as i16)]
    } else {
        Seq::<(usize, i16)>::empty()
    }) + (if p.on_board() {
        seq![(p.index() as usize, 1i16)]
    } else {
        Seq::<(usize, i16)>::empty()
    })
}

/// The excess value that a cut of a line open at both ends leaves at its `p1` end.
pub open spec fn cut_p2_excess(l: Line) -> int {
    if l.both() {
        sq(l.n())
    } else {
        0
    }
}

proof fn lemma_p2_cut_value_at(
    b: Seq<u8>,
    pos: BoardPos,
    s: Seq<Line>,
    i2: int,
    p: BoardPos,
    q: BoardPos,
    sign: bool,
    w: int,
    h: int,
)
    requires
        b.len() == 16,
        pos.on_board(),
        p != pos,
        p.on_board() ==> at(b, p.w as int, p.h as int) == 0,
        at(b, q.w as int, q.h as int) != 0,
        0 <= i2 < s.len(),
        s[i2].p2 == pos,
        s[i2].p1 != pos,
        p.on_board() ==> s[i2].p1 != p,
        s[i2].both() ==> at(b, s[i2].p1.w as int, s[i2].p1.h as int) == 0 && s[i2].p1.on_board(),
        !s[i2].both() ==> at(b, s[i2].p1.w as int, s[i2].p1.h as int) != 0,
        1 <= s[i2].n() <= 3,
    ensures
        cell_step(
            b,
            pos,
            s,
            cut_p2_row(s, i2, p, q, sign),
            cut_p2_changes(s[i2], p),
            s[i2].p1.w as int,
            s[i2].p1.h as int,
            cut_p2_excess(s[i2]),
            w,
            h,
        ),
        change_sum(cut_p2_changes(s[i2], p), pos.w * 4 + pos.h) == -cut_p2_excess(s[i2]),
{
    let l = s[i2];
    let y1 = with_p2(l, l.p2, LineActive::ONE, l.n());
    let z = start_down(q, p, sign);
    let e = cut_p2_changes(l, p);
    if l.both() {
        lemma_row_sum_update(s, i2, y1, w, h);
        if p.on_board() {
            lemma_row_sum_push(s.update(i2, y1), z, w, h);
        }
    } else {
        lemma_row_sum_remove(s, i2, w, h);
        if p.on_board() {
            lemma_row_sum_push(s.remove(i2), z, w, h);
        }
    }
    assert(e.len() <= 2);
    lemma_change_sum_small(e, w * 4 + h);
    lemma_change_sum_small(e, pos.w * 4 + pos.h);
    lemma_sq_small();
}

/// The other player's line at the stone's `p2` side loses that end; the stone starts a line
/// of its own on its free `p2` side, if that lies on the board.
#[verifier::rlimit(100)]
#[verifier::spinoff_prover]
proof fn lemma_p2_cut(
    b: Seq<u8>,
    f: int,
    pos: BoardPos,
    sign: bool,
    s: Seq<Line>,
    i2: int,
    p: BoardPos,
    q: BoardPos,
)
    requires
        p2_case(b, f, pos, s, i2),
        s[i2].sign != sign,
        step_down(f, pos, p),
        step_up(f, pos, q),
    ensures
        ({
            let c = color(sign);
            let b2 = put(b, pos.w as int, pos.h as int, c);
            let r = row_of(f, pos.w as int, pos.h as int);
            let l = s[i2];
            let e = cut_p2_changes(l, p);
            &&& !four_through(b2, f, r, along(f, pos.w as int, pos.h as int), c)
            &&& row_good(b2, f, r, cut_p2_row(s, i2, p, q, sign))
            &&& changes_small(e)
            &&& values_step(
                b,
                pos,
                s,
                cut_p2_row(s, i2, p, q, sign),
                e,
                l.p1.w as int,
                l.p1.h as int,
                cut_p2_excess(l),
            )
        }),
{
    reveal(new_lines_fit);
    reveal(row_good);
    reveal(step_pre);
    reveal(p2_case);
    let c = color(sign);
    let w0 = pos.w as int;
    let h0 = pos.h as int;
    let b2 = put(b, w0, h0, c);
    let r = row_of(f, w0, h0);
    let t0 = along(f, w0, h0);
    let l = s[i2];
    let n = l.n();
    let y1 = with_p2(l, l.p2, LineActive::ONE, n);
    let z = start_down(q, p, sign);
    let e = cut_p2_changes(l, p);
    let s2 = cut_p2_row(s, i2, p, q, sign);
    lemma_p2_facts(b, f, pos, s, i2);
    lemma_near(b, f, pos, c);
    assert(at_rt(b, f, r, t0 - 1) == at(b, p.w as int, p.h as int));
    assert(at_rt(b, f, r, t0 + 1) == at(b, q.w as int, q.h as int));
    assert(at_rt(b, f, r, l.a1(f)) == at(b, l.p1.w as int, l.p1.h as int));
    assert(z.a2(f) == t0 - 1 && z.a1(f) == t0 + 1);
    assert(s.contains(l));
    if l.both() {
        assert(line_ok(b2, f, r, y1));
    }
    if p.on_board() {
        assert(at_rt(b, f, r, t0 - 1) == 0);
        assert(line_ok(b2, f, r, z));
    }
    let nl = if l.both() {
        if p.on_board() {
            seq![y1, z]
        } else {
            seq![y1]
        }
    } else {
        if p.on_board() {
            seq![z]
        } else {
            Seq::<Line>::empty()
        }
    };
    assert forall|x: Line| nl.contains(x) implies (l.both() && x == y1) || (p.on_board() && x == z) by {
        let k = choose|k: int| 0 <= k < nl.len() && nl[k] == x;
    }
    if l.both() {
        assert(nl[0] == y1);
    }
    if p.on_board() {
        assert(nl[nl.len() - 1] == z);
    }
    assert(new_lines_fit(b, f, r, s, t0, c, nl));
    lemma_new_not_kept(b, f, r, s, w0, h0, c, nl);
    if l.both() {
        if p.on_board() {
            lemma_update_push_contents(f, t0, s, i2, y1, z);
        } else {
            lemma_update_contents(f, t0, s, i2, y1);
        }
    } else {
        if p.on_board() {
            lemma_remove_push_contents(f, t0, s, i2, z);
        } else {
            lemma_remove_contents(f, t0, s, i2);
        }
    }
    lemma_row_step(b, f, r, s, s2, w0, h0, c, nl);
    lemma_sq_small();
    assert forall|w: int, h: int| #[trigger] cell_step(
        b,
        pos,
        s,
        s2,
        e,
        l.p1.w as int,
        l.p1.h as int,
        cut_p2_excess(l),
        w,
        h,
    ) by {
        lemma_p2_cut_value_at(b, pos, s, i2, p, q, sign, w, h);
    }
    lemma_p2_cut_value_at(b, pos, s, i2, p, q, sign, 0, 0);
    if l.both() {
        assert(s2.contains(y1)) by {
            if p.on_board() {
                assert(s2[i2] == y1);
            } else {
                assert(s2[i2] == y1);
            }
        }
        assert(closed_at_stone(pos, s, s2, l.p1.w as int, l.p1.h as int, cut_p2_excess(l))) by {
            reveal(closed_at_stone);
            assert(l.p2 == pos);
            assert(y1 == with_p2(l, pos, LineActive::ONE, l.n()));
        }
    }
}

/// Common requirements of the cases where the new stone is at the `p1` end of line `i1` and
/// at the `p2` end of line `i2`.
#[verifier::opaque]
pub open spec fn both_case(b: Seq<u8>, f: int, pos: BoardPos, s: Seq<Line>, i1: int, i2: int) -> bool {
    &&& step_pre(b, f, pos, s)
    &&& 0 <= i1 < s.len()
    &&& 0 <= i2 < s.len()
    &&& s[i1].p1 == pos
    &&& s[i2].p2 == pos
}

/// What the matching tells about the two lines that end at the new stone.
proof fn lemma_both_facts(b: Seq<u8>, f: int, pos: BoardPos, s: Seq<Line>, i1: int, i2: int)
    requires
        both_case(b, f, pos, s, i1, i2),
    ensures
        ({
            let r = row_of(f, pos.w as int, pos.h as int);
            let t0 = along(f, pos.w as int, pos.h as int);
            let l1 = s[i1];
            let l2 = s[i2];
            let n1 = l1.n();
            let n2 = l2.n();
            &&& step_pre(b, f, pos, s)
            &&& 0 <= i1 < s.len() && 0 <= i2 < s.len() && i1 != i2
            &&& l1.p1 == pos && l2.p2 == pos
            &&& line_ok(b, f, r, l1) && line_ok(b, f, r, l2)
            &&& l1.a1(f) == t0 && l2.a2(f) == t0
            &&& run_down(b, f, r, t0, n1, l1.col()) && is_stone(l1.col())
            &&& run_up(b, f, r, t0, n2, l2.col()) && is_stone(l2.col())
            &&& l1.both() ==> l1.a2(f) == t0 - n1 - 1 && at_rt(b, f, r, l1.a2(f)) == 0
            &&& !l1.both() ==> at_rt(b, f, r, l1.a2(f)) != 0 && blocks(at_rt(b, f, r, t0 - n1 - 1), l1.col())
            &&& l2.both() ==> l2.a1(f) == t0 + n2 + 1 && at_rt(b, f, r, l2.a1(f)) == 0
            &&& !l2.both() ==> at_rt(b, f, r, l2.a1(f)) != 0 && blocks(at_rt(b, f, r, t0 + n2 + 1), l2.col())
            &&& !(l1.both() && l2.both())
            &&& l1 != l2
            &&& forall|x: Line| s.contains(x) && x != l1 && x != l2 ==> kept(f, t0, x)
        }),
{
    reveal(row_good);
    reveal(step_pre);
    reveal(both_case);
    let r = row_of(f, pos.w as int, pos.h as int);
    let t0 = along(f, pos.w as int, pos.h as int);
    let l1 = s[i1];
    let l2 = s[i2];
    assert(s.contains(l1) && s.contains(l2));
    assert(at_rt(b, f, r, t0) == 0);
    assert(line_ok(b, f, r, l1));
    assert(line_ok(b, f, r, l2));
    if l1.both() && l2.both() {
        // Both open ends would lie on the board, more than a row's length apart.
        assert(at_rt(b, f, r, l1.a2(f)) == 0);
        assert(at_rt(b, f, r, l2.a1(f)) == 0);
        assert(false);
    }
    assert forall|x: Line| s.contains(x) && x != l1 && x != l2 implies kept(f, t0, x) by {
        assert(line_ok(b, f, r, x));
        if x.a1(f) == t0 {
            assert(x == l1);
        }
        if x.a2(f) == t0 {
            assert(x == l2);
        }
    }
}

/// The contents of `s.remove(hi).remove(lo)`.
proof fn lemma_remove_two_contents(f: int, t0: int, s: Seq<Line>, hi: int, lo: int)
    requires
        0 <= lo < hi < s.len(),
        s.no_duplicates(),
        forall|x: Line| s.contains(x) && x != s[hi] && x != s[lo] ==> kept(f, t0, x),
        !kept(f, t0, s[hi]),
        !kept(f, t0, s[lo]),
    ensures
        forall|x: Line| #[trigger]
            s.remove(hi).remove(lo).contains(x) <==> (s.contains(x) && kept(f, t0, x))
                || Seq::<Line>::empty().contains(x),
        s.remove(hi).remove(lo).no_duplicates(),
{
    lemma_contains_remove(s, hi);
    assert(s.remove(hi)[lo] == s[lo]);
    lemma_contains_remove(s.remove(hi), lo);
}

/// The contents of `s.update(i, y).remove(j)`.
proof fn lemma_update_remove_contents(f: int, t0: int, s: Seq<Line>, i: int, j: int, y: Line)
    requires
        0 <= i < s.len(),
        0 <= j < s.len(),
        i != j,
        s.no_duplicates(),
        forall|x: Line| s.contains(x) && x != s[i] && x != s[j] ==> kept(f, t0, x),
        !kept(f, t0, s[i]),
        !kept(f, t0, s[j]),
        forall|x: Line| s.contains(x) && kept(f, t0, x) ==> x != y,
        y != s[j],
    ensures
        forall|x: Line| #[trigger]
            s.update(i, y).remove(j).contains(x) <==> (s.contains(x) && kept(f, t0, x)) || seq![y].contains(x),
        s.update(i, y).remove(j).no_duplicates(),
{
    lemma_contains_update(s, i, y);
    let s1 = s.update(i, y);
    assert(s1[j] == s[j]);
    lemma_contains_remove(s1, j);
    let nl = seq![y];
    assert(nl[0] == y);
    assert forall|x: Line| nl.contains(x) <==> x == y by {}
}

/// The stone makes four in a row together with the lines at both of its sides.
proof fn lemma_both_win(b: Seq<u8>, f: int, pos: BoardPos, sign: bool, s: Seq<Line>, i1: int, i2: int)
    requires
        both_case(b, f, pos, s, i1, i2),
        ({
            let c = color(sign);
            let l1 = s[i1];
            let l2 = s[i2];
            ||| l1.col() == c && l2.col() == c && l1.n() + l2.n() + 1 > 3
            ||| l1.col() == c && l2.col() != c && l1.n() == 3
            ||| l1.col() != c && l2.col() == c && l2.n() == 3
        }),
    ensures
        four_through(
            put(b, pos.w as int, pos.h as int, color(sign)),
            f,
            row_of(f, pos.w as int, pos.h as int),
            along(f, pos.w as int, pos.h as int),
            color(sign),
        ),
{
    reveal(step_pre);
    let c = color(sign);
    let b2 = put(b, pos.w as int, pos.h as int, c);
    let r = row_of(f, pos.w as int, pos.h as int);
    let t0 = along(f, pos.w as int, pos.h as int);
    lemma_both_facts(b, f, pos, s, i1, i2);
    lemma_near(b, f, pos, c);
    let l1 = s[i1];
    if l1.col() == c && s[i2].col() == c {
        assert(four_at(b2, f, r, t0 - l1.n(), c));
    } else if l1.col() == c {
        assert(four_at(b2, f, r, t0 - 3, c));
    } else {
        assert(four_at(b2, f, r, t0, c));
    }
}

/// Where the stone makes no four in a row with the lines at its two sides.
pub open spec fn both_no_win(c: int, l1: Line, l2: Line) -> bool {
    &&& l1.col() == c && l2.col() == c ==> l1.n() + l2.n() + 1 <= 3
    &&& l1.col() == c && l2.col() != c ==> l1.n() < 3
    &&& l1.col() != c && l2.col() == c ==> l2.n() < 3
}

#[verifier::rlimit(80)]
proof fn lemma_both_no_four(b: Seq<u8>, f: int, pos: BoardPos, sign: bool, s: Seq<Line>, i1: int, i2: int)
    requires
        both_case(b, f, pos, s, i1, i2),
        both_no_win(color(sign), s[i1], s[i2]),
    ensures
        !four_through(
            put(b, pos.w as int, pos.h as int, color(sign)),
            f,
            row_of(f, pos.w as int, pos.h as int),
            along(f, pos.w as int, pos.h as int),
            color(sign),
        ),
{
    reveal(step_pre);
    let c = color(sign);
    let b2 = put(b, pos.w as int, pos.h as int, c);
    let r = row_of(f, pos.w as int, pos.h as int);
    let t0 = along(f, pos.w as int, pos.h as int);
    lemma_both_facts(b, f, pos, s, i1, i2);
    lemma_near(b, f, pos, c);
    let l1 = s[i1];
    let l2 = s[i2];
    let n1 = l1.n();
    let n2 = l2.n();
    if l1.col() == c {
        assert(at_rt(b2, f, r, t0 - n1 - 1) != c);
    } else {
        assert(at_rt(b2, f, r, t0 - 1) != c);
    }
    if l2.col() == c {
        assert(at_rt(b2, f, r, t0 + n2 + 1) != c);
    } else {
        assert(at_rt(b2, f, r, t0 + 1) != c);
    }
}

/// Without four in a row, where both lines are open at the stone only: both are removed.
#[verifier::rlimit(60)]
proof fn lemma_both_remove(b: Seq<u8>, f: int, pos: BoardPos, sign: bool, s: Seq<Line>, i1: int, i2: int)
    requires
        both_case(b, f, pos, s, i1, i2),
        !s[i1].both(),
        !s[i2].both(),
        both_no_win(color(sign), s[i1], s[i2]),
    ensures
        ({
            let c = color(sign);
            let b2 = put(b, pos.w as int, pos.h as int, c);
            let r = row_of(f, pos.w as int, pos.h as int);
            let s2 = s.remove(if i1 > i2 { i1 } else { i2 }).remove(if i1 > i2 { i2 } else { i1 });
            &&& !four_through(b2, f, r, along(f, pos.w as int, pos.h as int), c)
            &&& row_good(b2, f, r, s2)
            &&& values_step(b, pos, s, s2, Seq::<(usize, i16)>::empty(), 0, 0, 0)
        }),
{
    reveal(new_lines_fit);
    reveal(step_pre);
    let c = color(sign);
    let w0 = pos.w as int;
    let h0 = pos.h as int;
    let r = row_of(f, w0, h0);
    let t0 = along(f, w0, h0);
    let e = Seq::<(usize, i16)>::empty();
    let hi = if i1 > i2 { i1 } else { i2 };
    let lo = if i1 > i2 { i2 } else { i1 };
    let s2 = s.remove(hi).remove(lo);
    lemma_both_facts(b, f, pos, s, i1, i2);
    lemma_both_no_four(b, f, pos, sign, s, i1, i2);
    lemma_row_good_basics(b, f, r, s);
    lemma_near(b, f, pos, c);
    let nl = Seq::<Line>::empty();
    assert(new_lines_fit(b, f, r, s, t0, c, nl));
    lemma_remove_two_contents(f, t0, s, hi, lo);
    lemma_row_step(b, f, r, s, s2, w0, h0, c, nl);
    assert forall|w: int, h: int| #[trigger] cell_step(b, pos, s, s2, e, 0, 0, 0, w, h) by {
        lemma_row_sum_remove(s, hi, w, h);
        assert(s.remove(hi)[lo] == s[lo]);
        lemma_row_sum_remove(s.remove(hi), lo, w, h);
    }
}

/// Without four in a row, where one of the two lines at the stone is replaced by `y` and the
/// other one is removed.
#[verifier::rlimit(80)]
proof fn lemma_both_keep_first(
    b: Seq<u8>,
    f: int,
    pos: BoardPos,
    sign: bool,
    s: Seq<Line>,
    i1: int,
    i2: int,
    y: Line,
)
    requires
        both_case(b, f, pos, s, i1, i2),
        both_no_win(color(sign), s[i1], s[i2]),
        line_ok(put(b, pos.w as int, pos.h as int, color(sign)), f, row_of(f, pos.w as int, pos.h as int), y),
        new_lines_fit(
            b,
            f,
            row_of(f, pos.w as int, pos.h as int),
            s,
            along(f, pos.w as int, pos.h as int),
            color(sign),
            seq![y],
        ),
        y != s[i2],
    ensures
        !four_through(
            put(b, pos.w as int, pos.h as int, color(sign)),
            f,
            row_of(f, pos.w as int, pos.h as int),
            along(f, pos.w as int, pos.h as int),
            color(sign),
        ),
        row_good(
            put(b, pos.w as int, pos.h as int, color(sign)),
            f,
            row_of(f, pos.w as int, pos.h as int),
            s.update(i1, y).remove(i2),
        ),
{
    let c = color(sign);
    let w0 = pos.w as int;
    let h0 = pos.h as int;
    let r = row_of(f, w0, h0);
    let t0 = along(f, w0, h0);
    let nl = seq![y];
    lemma_both_facts(b, f, pos, s, i1, i2);
    lemma_pre_basics(b, f, pos, s);
    lemma_both_no_four(b, f, pos, sign, s, i1, i2);
    lemma_row_good_basics(b, f, r, s);
    assert(nl[0] == y);
    assert forall|x: Line| nl.contains(x) implies line_ok(put(b, w0, h0, c), f, r, x) by {}
    lemma_new_not_kept(b, f, r, s, w0, h0, c, nl);
    let l1 = s[i1];
    let l2 = s[i2];
    assert(nl.contains(y));
    assert(forall|x: Line| s.contains(x) && kept(f, t0, x) ==> x != y);
    assert(!kept(f, t0, l1) && !kept(f, t0, l2));
    assert(forall|x: Line| s.contains(x) && x != s[i1] && x != s[i2] ==> kept(f, t0, x));
    lemma_update_remove_contents(f, t0, s, i1, i2, y);
    let s2 = s.update(i1, y).remove(i2);
    assert(forall|x: Line| #[trigger] s2.contains(x) <==> (s.contains(x) && kept(f, t0, x)) || nl.contains(x));
    lemma_row_step(b, f, r, s, s2, w0, h0, c, nl);
}

/// Without four in a row, where one of the two lines at the stone is replaced by `y` and the
/// other one is removed.
#[verifier::rlimit(80)]
proof fn lemma_both_keep_second(
    b: Seq<u8>,
    f: int,
    pos: BoardPos,
    sign: bool,
    s: Seq<Line>,
    i1: int,
    i2: int,
    y: Line,
)
    requires
        both_case(b, f, pos, s, i1, i2),
        both_no_win(color(sign), s[i1], s[i2]),
        line_ok(put(b, pos.w as int, pos.h as int, color(sign)), f, row_of(f, pos.w as int, pos.h as int), y),
        new_lines_fit(
            b,
            f,
            row_of(f, pos.w as int, pos.h as int),
            s,
            along(f, pos.w as int, pos.h as int),
            color(sign),
            seq![y],
        ),
        y != s[i1],
    ensures
        !four_through(
            put(b, pos.w as int, pos.h as int, color(sign)),
            f,
            row_of(f, pos.w as int, pos.h as int),
            along(f, pos.w as int, pos.h as int),
            color(sign),
        ),
        row_good(
            put(b, pos.w as int, pos.h as int, color(sign)),
            f,
            row_of(f, pos.w as int, pos.h as int),
            s.update(i2, y).remove(i1),
        ),
{
    let c = color(sign);
    let w0 = pos.w as int;
    let h0 = pos.h as int;
    let r = row_of(f, w0, h0);
    let t0 = along(f, w0, h0);
    let nl = seq![y];
    lemma_both_facts(b, f, pos, s, i1, i2);
    lemma_pre_basics(b, f, pos, s);
    lemma_both_no_four(b, f, pos, sign, s, i1, i2);
    lemma_row_good_basics(b, f, r, s);
    assert(nl[0] == y);
    assert forall|x: Line| nl.contains(x) implies line_ok(put(b, w0, h0, c), f, r, x) by {}
    lemma_new_not_kept(b, f, r, s, w0, h0, c, nl);
    let l1 = s[i1];
    let l2 = s[i2];
    assert(nl.contains(y));
    assert(forall|x: Line| s.contains(x) && kept(f, t0, x) ==> x != y);
    assert(!kept(f, t0, l1) && !kept(f, t0, l2));
    assert(forall|x: Line| s.contains(x) && x != s[i2] && x != s[i1] ==> kept(f, t0, x));
    lemma_update_remove_contents(f, t0, s, i2, i1, y);
    let s2 = s.update(i2, y).remove(i1);
    assert(forall|x: Line| #[trigger] s2.contains(x) <==> (s.contains(x) && kept(f, t0, x)) || nl.contains(x));
    lemma_row_step(b, f, r, s, s2, w0, h0, c, nl);
}

/// The value changes of the "one line left" shapes: `e` changes only cell `q`, by what `y`
/// adds there minus what the two old lines added there.
proof fn lemma_keep_one_value_at(
    b: Seq<u8>,
    pos: BoardPos,
    s: Seq<Line>,
    ik: int,
    idr: int,
    y: Line,
    q: BoardPos,
    e: Seq<(usize, i16)>,
    w: int,
    h: int,
)
    requires
        b.len() == 16,
        pos.on_board(),
        q.on_board(),
        q != pos,
        at(b, q.w as int, q.h as int) == 0,
        0 <= ik < s.len(),
        0 <= idr < s.len(),
        ik != idr,
        e.len() <= 2,
        forall|k: int| 0 <= k < e.len() ==> e[k].0 == q.index(),
        change_sum(e, q.index()) == contribution(y, q.w as int, q.h as int) - contribution(
            s[ik],
            q.w as int,
            q.h as int,
        ) - contribution(s[idr], q.w as int, q.h as int),
        forall|w2: int, h2: int|
            at(b, w2, h2) == 0 && !(w2 == pos.w && h2 == pos.h) && !(w2 == q.w && h2 == q.h) ==> (
            #[trigger] contribution(y, w2, h2)) == 0 && contribution(s[ik], w2, h2) == 0
                && contribution(s[idr], w2, h2) == 0,
    ensures
        cell_step(b, pos, s, s.update(ik, y).remove(idr), e, 0, 0, 0, w, h),
        change_sum(e, pos.w * 4 + pos.h) == 0,
{
    lemma_row_sum_update(s, ik, y, w, h);
    assert(s.update(ik, y)[idr] == s[idr]);
    lemma_row_sum_remove(s.update(ik, y), idr, w, h);
    lemma_change_sum_small(e, w * 4 + h);
    lemma_change_sum_small(e, pos.w * 4 + pos.h);
    lemma_change_sum_small(e, q.index());
}

/// What a step of the row in the `both` cases promises without a win.
pub open spec fn both_result(
    b: Seq<u8>,
    f: int,
    pos: BoardPos,
    sign: bool,
    s: Seq<Line>,
    s2: Seq<Line>,
    e: Seq<(usize, i16)>,
) -> bool {
    let c = color(sign);
    let b2 = put(b, pos.w as int, pos.h as int, c);
    let r = row_of(f, pos.w as int, pos.h as int);
    &&& !four_through(b2, f, r, along(f, pos.w as int, pos.h as int), c)
    &&& row_good(b2, f, r, s2)
    &&& e.len() <= 4
    &&& changes_small(e)
    &&& values_step(b, pos, s, s2, e, 0, 0, 0)
}

/// The other player's line open at both ends is closed at its `p2` end by the stone; the
/// line at the stone's other side dies.
#[verifier::rlimit(80)]
proof fn lemma_both_cut_p2(b: Seq<u8>, f: int, pos: BoardPos, sign: bool, s: Seq<Line>, i1: int, i2: int)
    requires
        both_case(b, f, pos, s, i1, i2),
        !s[i1].both(),
        s[i2].both(),
        s[i2].col() != color(sign),
        both_no_win(color(sign), s[i1], s[i2]),
    ensures
        ({
            let l1 = s[i1];
            let l2 = s[i2];
            let y = with_p2(l2, l2.p2, LineActive::ONE, l2.n());
            let e = seq![(l2.p1.index() as usize, (-sq(l2.n())) as i16)];
            &&& l2.p1.on_board()
            &&& both_result(b, f, pos, sign, s, s.update(i2, y).remove(i1), e)
        }),
{
    reveal(new_lines_fit);
    let c = color(sign);
    let w0 = pos.w as int;
    let h0 = pos.h as int;
    let b2 = put(b, w0, h0, c);
    let r = row_of(f, w0, h0);
    let t0 = along(f, w0, h0);
    let l1 = s[i1];
    let l2 = s[i2];
    let y = with_p2(l2, l2.p2, LineActive::ONE, l2.n());
    let e = seq![(l2.p1.index() as usize, (-sq(l2.n())) as i16)];
    let q = l2.p1;
    lemma_both_facts(b, f, pos, s, i1, i2);
    lemma_pre_basics(b, f, pos, s);
    lemma_near(b, f, pos, c);
    lemma_sq_small();
    assert(at_rt(b, f, r, l1.a2(f)) == at(b, l1.p2.w as int, l1.p2.h as int));
    assert(at_rt(b, f, r, l2.a1(f)) == at(b, l2.p1.w as int, l2.p1.h as int));
    assert(line_ok(b2, f, r, y));
    let nl = seq![y];
    assert(nl[0] == y);
    assert forall|x: Line| nl.contains(x) implies x == y by {}
    assert(s.contains(l1) && s.contains(l2));
    assert(new_lines_fit(b, f, r, s, t0, c, nl));
    lemma_both_keep_second(b, f, pos, sign, s, i1, i2, y);
    lemma_change_sum_small(e, q.index());
    assert forall|w: int, h: int| #[trigger] cell_step(b, pos, s, s.update(i2, y).remove(i1), e, 0, 0, 0, w, h) by {
        lemma_keep_one_value_at(b, pos, s, i2, i1, y, q, e, w, h);
    }
    lemma_keep_one_value_at(b, pos, s, i2, i1, y, q, e, 0, 0);
}

/// The other player's line open at both ends is closed at its `p1` end by the stone; the
/// line at the stone's other side dies.
#[verifier::rlimit(80)]
proof fn lemma_both_cut_p1(b: Seq<u8>, f: int, pos: BoardPos, sign: bool, s: Seq<Line>, i1: int, i2: int)
    requires
        both_case(b, f, pos, s, i1, i2),
        s[i1].both(),
        !s[i2].both(),
        s[i1].col() != color(sign),
        both_no_win(color(sign), s[i1], s[i2]),
    ensures
        ({
            let l1 = s[i1];
            let l2 = s[i2];
            let y = with_p1(l1, l1.p1, LineActive::ONE, l1.n());
            let e = seq![(l1.p2.index() as usize, (-sq(l1.n())) as i16)];
            &&& l1.p2.on_board()
            &&& both_result(b, f, pos, sign, s, s.update(i1, y).remove(i2), e)
        }),
{
    reveal(new_lines_fit);
    let c = color(sign);
    let w0 = pos.w as int;
    let h0 = pos.h as int;
    let b2 = put(b, w0, h0, c);
    let r = row_of(f, w0, h0);
    let t0 = along(f, w0, h0);
    let l1 = s[i1];
    let l2 = s[i2];
    let y = with_p1(l1, l1.p1, LineActive::ONE, l1.n());
    let e = seq![(l1.p2.index() as usize, (-sq(l1.n())) as i16)];
    let q = l1.p2;
    lemma_both_facts(b, f, pos, s, i1, i2);
    lemma_pre_basics(b, f, pos, s);
    lemma_near(b, f, pos, c);
    lemma_sq_small();
    assert(at_rt(b, f, r, l1.a2(f)) == at(b, l1.p2.w as int, l1.p2.h as int));
    assert(at_rt(b, f, r, l2.a1(f)) == at(b, l2.p1.w as int, l2.p1.h as int));
    assert(line_ok(b2, f, r, y));
    let nl = seq![y];
    assert(nl[0] == y);
    assert forall|x: Line| nl.contains(x) implies x == y by {}
    assert(s.contains(l1) && s.contains(l2));
    assert(new_lines_fit(b, f, r, s, t0, c, nl));
    lemma_both_keep_first(b, f, pos, sign, s, i1, i2, y);
    lemma_change_sum_small(e, q.index());
    assert forall|w: int, h: int| #[trigger] cell_step(b, pos, s, s.update(i1, y).remove(i2), e, 0, 0, 0, w, h) by {
        lemma_keep_one_value_at(b, pos, s, i1, i2, y, q, e, w, h);
    }
    lemma_keep_one_value_at(b, pos, s, i1, i2, y, q, e, 0, 0);
}

/// Two lines of the same player join through the stone into the line open at the far `p1`
/// end of the second one.
#[verifier::rlimit(80)]
proof fn lemma_both_join_p1(b: Seq<u8>, f: int, pos: BoardPos, sign: bool, s: Seq<Line>, i1: int, i2: int)
    requires
        both_case(b, f, pos, s, i1, i2),
        !s[i1].both(),
        s[i2].both(),
        s[i1].col() == color(sign),
        s[i2].col() == color(sign),
        s[i1].n() + s[i2].n() + 1 <= 3,
    ensures
        ({
            let l1 = s[i1];
            let l2 = s[i2];
            let y = with_p1(l1, l2.p1, LineActive::ONE, l1.n() + l2.n() + 1);
            let e = seq![(l2.p1.index() as usize, (-2 * sq(l2.n())) as i16), (l2.p1.index() as usize, sq(l1.n() + l2.n() + 1) as i16)];
            &&& l2.p1.on_board()
            &&& both_result(b, f, pos, sign, s, s.update(i1, y).remove(i2), e)
        }),
{
    reveal(new_lines_fit);
    let c = color(sign);
    let w0 = pos.w as int;
    let h0 = pos.h as int;
    let b2 = put(b, w0, h0, c);
    let r = row_of(f, w0, h0);
    let t0 = along(f, w0, h0);
    let l1 = s[i1];
    let l2 = s[i2];
    let y = with_p1(l1, l2.p1, LineActive::ONE, l1.n() + l2.n() + 1);
    let e = seq![(l2.p1.index() as usize, (-2 * sq(l2.n())) as i16), (l2.p1.index() as usize, sq(l1.n() + l2.n() + 1) as i16)];
    let q = l2.p1;
    lemma_both_facts(b, f, pos, s, i1, i2);
    lemma_pre_basics(b, f, pos, s);
    lemma_near(b, f, pos, c);
    lemma_sq_small();
    assert(at_rt(b, f, r, l1.a2(f)) == at(b, l1.p2.w as int, l1.p2.h as int));
    assert(at_rt(b, f, r, l2.a1(f)) == at(b, l2.p1.w as int, l2.p1.h as int));
    assert(line_ok(b2, f, r, y));
    let nl = seq![y];
    assert(nl[0] == y);
    assert forall|x: Line| nl.contains(x) implies x == y by {}
    assert(s.contains(l1) && s.contains(l2));
    assert(new_lines_fit(b, f, r, s, t0, c, nl));
    lemma_both_keep_first(b, f, pos, sign, s, i1, i2, y);
    lemma_change_sum_small(e, q.index());
    assert forall|w: int, h: int| #[trigger] cell_step(b, pos, s, s.update(i1, y).remove(i2), e, 0, 0, 0, w, h) by {
        lemma_keep_one_value_at(b, pos, s, i1, i2, y, q, e, w, h);
    }
    lemma_keep_one_value_at(b, pos, s, i1, i2, y, q, e, 0, 0);
}

/// Two lines of the same player join through the stone into the line open at the far `p2`
/// end of the first one.
#[verifier::rlimit(80)]
proof fn lemma_both_join_p2(b: Seq<u8>, f: int, pos: BoardPos, sign: bool, s: Seq<Line>, i1: int, i2: int)
    requires
        both_case(b, f, pos, s, i1, i2),
        s[i1].both(),
        !s[i2].both(),
        s[i1].col() == color(sign),
        s[i2].col() == color(sign),
        s[i1].n() + s[i2].n() + 1 <= 3,
    ensures
        ({
            let l1 = s[i1];
            let l2 = s[i2];
            let y = with_p2(l2, l1.p2, LineActive::ONE, l1.n() + l2.n() + 1);
            let e = seq![(l1.p2.index() as usize, (-2 * sq(l1.n())) as i16), (l1.p2.index() as usize, sq(l1.n() + l2.n() + 1) as i16)];
            &&& l1.p2.on_board()
            &&& both_result(b, f, pos, sign, s, s.update(i2, y).remove(i1), e)
        }),
{
    reveal(new_lines_fit);
    let c = color(sign);
    let w0 = pos.w as int;
    let h0 = pos.h as int;
    let b2 = put(b, w0, h0, c);
    let r = row_of(f, w0, h0);
    let t0 = along(f, w0, h0);
    let l1 = s[i1];
    let l2 = s[i2];
    let y = with_p2(l2, l1.p2, LineActive::ONE, l1.n() + l2.n() + 1);
    let e = seq![(l1.p2.index() as usize, (-2 * sq(l1.n())) as i16), (l1.p2.index() as usize, sq(l1.n() + l2.n() + 1) as i16)];
    let q = l1.p2;
    lemma_both_facts(b, f, pos, s, i1, i2);
    lemma_pre_basics(b, f, pos, s);
    lemma_near(b, f, pos, c);
    lemma_sq_small();
    assert(at_rt(b, f, r, l1.a2(f)) == at(b, l1.p2.w as int, l1.p2.h as int));
    assert(at_rt(b, f, r, l2.a1(f)) == at(b, l2.p1.w as int, l2.p1.h as int));
    assert(line_ok(b2, f, r, y));
    let nl = seq![y];
    assert(nl[0] == y);
    assert forall|x: Line| nl.contains(x) implies x == y by {}
    assert(s.contains(l1) && s.contains(l2));
    assert(new_lines_fit(b, f, r, s, t0, c, nl));
    lemma_both_keep_second(b, f, pos, sign, s, i1, i2, y);
    lemma_change_sum_small(e, q.index());
    assert forall|w: int, h: int| #[trigger] cell_step(b, pos, s, s.update(i2, y).remove(i1), e, 0, 0, 0, w, h) by {
        lemma_keep_one_value_at(b, pos, s, i2, i1, y, q, e, w, h);
    }
    lemma_keep_one_value_at(b, pos, s, i2, i1, y, q, e, 0, 0);
}

/// The line of the same player at the stone's `p2` side grows by the stone and is closed by
/// the other player's line beyond it.
#[verifier::rlimit(80)]
proof fn lemma_both_grow_p1(b: Seq<u8>, f: int, pos: BoardPos, sign: bool, s: Seq<Line>, i1: int, i2: int)
    requires
        both_case(b, f, pos, s, i1, i2),
        s[i1].both(),
        !s[i2].both(),
        s[i1].col() == color(sign),
        s[i2].col() != color(sign),
        s[i1].n() < 3,
    ensures
        ({
            let l1 = s[i1];
            let l2 = s[i2];
            let y = with_p1(l1, l1.p1, LineActive::ONE, l1.n() + 1);
            let e = seq![(l1.p2.index() as usize, (-2 * sq(l1.n())) as i16), (l1.p2.index() as usize, sq(l1.n() + 1) as i16)];
            &&& l1.p2.on_board()
            &&& both_result(b, f, pos, sign, s, s.update(i1, y).remove(i2), e)
        }),
{
    reveal(new_lines_fit);
    let c = color(sign);
    let w0 = pos.w as int;
    let h0 = pos.h as int;
    let b2 = put(b, w0, h0, c);
    let r = row_of(f, w0, h0);
    let t0 = along(f, w0, h0);
    let l1 = s[i1];
    let l2 = s[i2];
    let y = with_p1(l1, l1.p1, LineActive::ONE, l1.n() + 1);
    let e = seq![(l1.p2.index() as usize, (-2 * sq(l1.n())) as i16), (l1.p2.index() as usize, sq(l1.n() + 1) as i16)];
    let q = l1.p2;
    lemma_both_facts(b, f, pos, s, i1, i2);
    lemma_pre_basics(b, f, pos, s);
    lemma_near(b, f, pos, c);
    lemma_sq_small();
    assert(at_rt(b, f, r, l1.a2(f)) == at(b, l1.p2.w as int, l1.p2.h as int));
    assert(at_rt(b, f, r, l2.a1(f)) == at(b, l2.p1.w as int, l2.p1.h as int));
    assert(line_ok(b2, f, r, y));
    let nl = seq![y];
    assert(nl[0] == y);
    assert forall|x: Line| nl.contains(x) implies x == y by {}
    assert(s.contains(l1) && s.contains(l2));
    assert(new_lines_fit(b, f, r, s, t0, c, nl));
    lemma_both_keep_first(b, f, pos, sign, s, i1, i2, y);
    lemma_change_sum_small(e, q.index());
    assert forall|w: int, h: int| #[trigger] cell_step(b, pos, s, s.update(i1, y).remove(i2), e, 0, 0, 0, w, h) by {
        lemma_keep_one_value_at(b, pos, s, i1, i2, y, q, e, w, h);
    }
    lemma_keep_one_value_at(b, pos, s, i1, i2, y, q, e, 0, 0);
}

/// The line of the same player at the stone's `p1` side grows by the stone and is closed by
/// the other player's line beyond it.
#[verifier::rlimit(80)]
proof fn lemma_both_grow_p2(b: Seq<u8>, f: int, pos: BoardPos, sign: bool, s: Seq<Line>, i1: int, i2: int)
    requires
        both_case(b, f, pos, s, i1, i2),
        !s[i1].both(),
        s[i2].both(),
        s[i1].col() != color(sign),
        s[i2].col() == color(sign),
        s[i2].n() < 3,
    ensures
        ({
            let l1 = s[i1];
            let l2 = s[i2];
            let y = with_p2(l2, l2.p2, LineActive::ONE, l2.n() + 1);
            let e = seq![(l2.p1.index() as usize, (-2 * sq(l2.n())) as i16), (l2.p1.index() as usize, sq(l2.n() + 1) as i16)];
            &&& l2.p1.on_board()
            &&& both_result(b, f, pos, sign, s, s.update(i2, y).remove(i1), e)
        }),
{
    reveal(new_lines_fit);
    let c = color(sign);
    let w0 = pos.w as int;
    let h0 = pos.h as int;
    let b2 = put(b, w0, h0, c);
    let r = row_of(f, w0, h0);
    let t0 = along(f, w0, h0);
    let l1 = s[i1];
    let l2 = s[i2];
    let y = with_p2(l2, l2.p2, LineActive::ONE, l2.n() + 1);
    let e = seq![(l2.p1.index() as usize, (-2 * sq(l2.n())) as i16), (l2.p1.index() as usize, sq(l2.n() + 1) as i16)];
    let q = l2.p1;
    lemma_both_facts(b, f, pos, s, i1, i2);
    lemma_pre_basics(b, f, pos, s);
    lemma_near(b, f, pos, c);
    lemma_sq_small();
    assert(at_rt(b, f, r, l1.a2(f)) == at(b, l1.p2.w as int, l1.p2.h as int));
    assert(at_rt(b, f, r, l2.a1(f)) == at(b, l2.p1.w as int, l2.p1.h as int));
    assert(line_ok(b2, f, r, y));
    let nl = seq![y];
    assert(nl[0] == y);
    assert forall|x: Line| nl.contains(x) implies x == y by {}
    assert(s.contains(l1) && s.contains(l2));
    assert(new_lines_fit(b, f, r, s, t0, c, nl));
    lemma_both_keep_second(b, f, pos, sign, s, i1, i2, y);
    lemma_change_sum_small(e, q.index());
    assert forall|w: int, h: int| #[trigger] cell_step(b, pos, s, s.update(i2, y).remove(i1), e, 0, 0, 0, w, h) by {
        lemma_keep_one_value_at(b, pos, s, i2, i1, y, q, e, w, h);
    }
    lemma_keep_one_value_at(b, pos, s, i2, i1, y, q, e, 0, 0);
}

/// The promise of a row step from what a `both` shape gives.
proof fn lemma_both_post(
    b: Seq<u8>,
    f: int,
    pos: BoardPos,
    sign: bool,
    s: Seq<Line>,
    s2: Seq<Line>,
    d0: Seq<(usize, i16)>,
    e: Seq<(usize, i16)>,
)
    requires
        both_result(b, f, pos, sign, s, s2, e),
    ensures
        step_post(b, f, pos, sign, s, s2, d0, d0 + e, false),
{
    reveal(step_post);
}

/// The basic facts inside `both_case`.
proof fn lemma_both_case_basics(b: Seq<u8>, f: int, pos: BoardPos, s: Seq<Line>, i1: int, i2: int)
    requires
        both_case(b, f, pos, s, i1, i2),
    ensures
        step_pre(b, f, pos, s),
        0 <= i1 < s.len(),
        0 <= i2 < s.len(),
{
    reveal(both_case);
}

/// At most one line of a row has its `p1` end at the empty cell `pos`.
proof fn lemma_match_p1_unique(b: Seq<u8>, f: int, pos: BoardPos, s: Seq<Line>, a: int, i: int)
    requires
        step_pre(b, f, pos, s),
        0 <= a < s.len(),
        0 <= i < s.len(),
        s[a].p1 == pos,
        s[i].p1 == pos,
    ensures
        a == i,
{
    reveal(step_pre);
    reveal(row_good);
    assert(s.contains(s[a]) && s.contains(s[i]));
    let r = row_of(f, pos.w as int, pos.h as int);
    assert(at_rt(b, f, r, s[a].a1(f)) == 0);
}

/// At most one line of a row has its `p2` end at the empty cell `pos`.
proof fn lemma_match_p2_unique(b: Seq<u8>, f: int, pos: BoardPos, s: Seq<Line>, a: int, i: int)
    requires
        step_pre(b, f, pos, s),
        0 <= a < s.len(),
        0 <= i < s.len(),
        s[a].p2 == pos,
        s[i].p2 == pos,
    ensures
        a == i,
{
    reveal(step_pre);
    reveal(row_good);
    assert(s.contains(s[a]) && s.contains(s[i]));
    let r = row_of(f, pos.w as int, pos.h as int);
    assert(at_rt(b, f, r, s[a].a2(f)) == 0);
}

/// No line has both of its ends at the empty cell `pos`.
proof fn lemma_match_not_both_ends(b: Seq<u8>, f: int, pos: BoardPos, s: Seq<Line>, i: int)
    requires
        step_pre(b, f, pos, s),
        0 <= i < s.len(),
        s[i].p1 == pos,
    ensures
        s[i].p2 != pos,
{
    reveal(step_pre);
    reveal(row_good);
    assert(s.contains(s[i]));
    let r = row_of(f, pos.w as int, pos.h as int);
    assert(line_ok(b, f, r, s[i]));
    assert(at_rt(b, f, r, s[i].a1(f)) == 0);
}

/// The case conditions from the result of the matching.
proof fn lemma_match_cases(b: Seq<u8>, f: int, pos: BoardPos, s: Seq<Line>, i1: int, i2: int)
    requires
        step_pre(b, f, pos, s),
    ensures
        (forall|x: Line| s.contains(x) ==> x.p1 != pos && x.p2 != pos) ==> no_end_at(s, pos),
        (0 <= i1 < s.len() && s[i1].p1 == pos && forall|x: Line| s.contains(x) ==> x.p2 != pos)
            ==> p1_case(b, f, pos, s, i1),
        (0 <= i2 < s.len() && s[i2].p2 == pos && forall|x: Line| s.contains(x) ==> x.p1 != pos)
            ==> p2_case(b, f, pos, s, i2),
        (0 <= i1 < s.len() && 0 <= i2 < s.len() && s[i1].p1 == pos && s[i2].p2 == pos) ==> both_case(
            b,
            f,
            pos,
            s,
            i1,
            i2,
        ),
{
    reveal(p1_case);
    reveal(p2_case);
    reveal(both_case);
}

/// Assembles the promise of a row step without a win from its parts.
proof fn lemma_step_post_intro(
    b: Seq<u8>,
    f: int,
    pos: BoardPos,
    sign: bool,
    s: Seq<Line>,
    s2: Seq<Line>,
    d0: Seq<(usize, i16)>,
    e: Seq<(usize, i16)>,
    qw: int,
    qh: int,
    z: int,
)
    requires
        ({
            let b2 = put(b, pos.w as int, pos.h as int, color(sign));
            let r = row_of(f, pos.w as int, pos.h as int);
            &&& !four_through(b2, f, r, along(f, pos.w as int, pos.h as int), color(sign))
            &&& row_good(b2, f, r, s2)
        }),
        e.len() <= 4,
        changes_small(e),
        values_step(b, pos, s, s2, e, qw, qh, z),
    ensures
        step_post(b, f, pos, sign, s, s2, d0, d0 + e, false),
{
    reveal(step_post);
}

/// The promise of a row step with a win.
proof fn lemma_step_post_win(
    b: Seq<u8>,
    f: int,
    pos: BoardPos,
    sign: bool,
    s: Seq<Line>,
    d0: Seq<(usize, i16)>,
)
    requires
        four_through(
            put(b, pos.w as int, pos.h as int, color(sign)),
            f,
            row_of(f, pos.w as int, pos.h as int),
            along(f, pos.w as int, pos.h as int),
            color(sign),
        ),
    ensures
        step_post(b, f, pos, sign, s, s, d0, d0, true),
{
    reveal(step_post);
}

// ---------------------------------------------------------------------------------------
// Facts about rows that the whole board needs
// ---------------------------------------------------------------------------------------
/// The lines of a row add nothing to cells of other rows.
pub proof fn lemma_row_sum_other_row(b: Seq<u8>, f: int, r: int, s: Seq<Line>, w: int, h: int)
    requires
        row_good(b, f, r, s),
        row_of(f, w, h) != r,
    ensures
        row_sum(s, w, h) == 0,
{
    reveal(row_good);
    lemma_row_sum_zero(b, f, r, s, w, h);
}

proof fn lemma_row_sum_zero(b: Seq<u8>, f: int, r: int, s: Seq<Line>, w: int, h: int)
    requires
        forall|x: Line| s.contains(x) ==> line_ok(b, f, r, x),
        row_of(f, w, h) != r,
    ensures
        row_sum(s, w, h) == 0,
    decreases s.len(),
{
    if s.len() > 0 {
        let t = s.drop_last();
        assert forall|x: Line| t.contains(x) implies line_ok(b, f, r, x) by {
            let k = choose|k: int| 0 <= k < t.len() && t[k] == x;
            assert(s[k] == x);
            assert(s.contains(x));
        }
        assert(s.contains(s.last()));
        lemma_row_sum_zero(b, f, r, t, w, h);
    }
}

/// Some line of `s` is open at its `p1` end `(w, h)` only.
pub open spec fn has_one_owner(s: Seq<Line>, w: int, h: int) -> bool {
    exists|x: Line| s.contains(x) && !x.both() && x.p1.w == w && x.p1.h == h
}

/// What the lines of a row add to an empty cell lies between 0 and 36.
pub proof fn lemma_row_sum_bound(b: Seq<u8>, f: int, r: int, s: Seq<Line>, w: int, h: int)
    requires
        board_ok(b),
        0 <= f < 4,
        row_good(b, f, r, s),
        at(b, w, h) == 0,
    ensures
        0 <= row_sum(s, w, h) <= 36,
{
    reveal(row_good);
    lemma_sq_small();
    assert forall|x: Line| s.contains(x) implies 0 <= #[trigger] weight(x) <= 18 by {
        assert(line_ok(b, f, r, x));
    }
    assert forall|x: Line, y: Line|
        s.contains(x) && s.contains(y) && x.p1.w == w && x.p1.h == h && y.p1.w == w && y.p1.h == h
            implies x == y by {
        assert(line_ok(b, f, r, x) && line_ok(b, f, r, y));
        assert(at_rt(b, f, r, x.a1(f)) == 0);
    }
    assert forall|x: Line, y: Line|
        s.contains(x) && s.contains(y) && x.p2.w == w && x.p2.h == h && y.p2.w == w && y.p2.h == h
            implies x == y by {
        assert(line_ok(b, f, r, x) && line_ok(b, f, r, y));
        assert(at_rt(b, f, r, x.a2(f)) == 0);
    }
    lemma_row_sum_bound_seq(s, w, h);
}

/// The number of lines of `s` with their `p1` (or `p2`) end at `(w, h)`, as 0 or 1.
pub open spec fn ends_p1(s: Seq<Line>, w: int, h: int) -> int {
    if exists|x: Line| s.contains(x) && x.p1.w == w && x.p1.h == h {
        1
    } else {
        0
    }
}

pub open spec fn ends_p2(s: Seq<Line>, w: int, h: int) -> int {
    if exists|x: Line| s.contains(x) && x.p2.w == w && x.p2.h == h {
        1
    } else {
        0
    }
}

proof fn lemma_row_sum_bound_seq(s: Seq<Line>, w: int, h: int)
    requires
        s.no_duplicates(),
        forall|x: Line| s.contains(x) ==> 0 <= #[trigger] weight(x) <= 18,
        forall|x: Line, y: Line|
            s.contains(x) && s.contains(y) && x.p1.w == w && x.p1.h == h && y.p1.w == w && y.p1.h == h
                ==> x == y,
        forall|x: Line, y: Line|
            s.contains(x) && s.contains(y) && x.p2.w == w && x.p2.h == h && y.p2.w == w && y.p2.h == h
                ==> x == y,
    ensures
        0 <= row_sum(s, w, h) <= 18 * ends_p1(s, w, h) + 18 * ends_p2(s, w, h),
    decreases s.len(),
{
    if s.len() > 0 {
        let t = s.drop_last();
        let z = s.last();
        assert forall|x: Line| t.contains(x) implies s.contains(x) && x != z by {
            let k = choose|k: int| 0 <= k < t.len() && t[k] == x;
            assert(s[k] == x);
            assert(s[s.len() - 1] == z);
        }
        assert(t.no_duplicates()) by {
            assert forall|j: int, k: int| 0 <= j < t.len() && 0 <= k < t.len() && j != k implies t[j] != t[k] by {
                assert(s[j] == t[j] && s[k] == t[k]);
            }
        }
        assert(s.contains(z));
        lemma_row_sum_bound_seq(t, w, h);
        if z.p1.w == w && z.p1.h == h {
            assert(ends_p1(t, w, h) == 0);
            assert(ends_p1(s, w, h) == 1);
        }
        if z.p2.w == w && z.p2.h == h {
            assert(ends_p2(t, w, h) == 0);
            assert(ends_p2(s, w, h) == 1);
        }
        if ends_p1(t, w, h) == 1 {
            let x = choose|x: Line| t.contains(x) && x.p1.w == w && x.p1.h == h;
            assert(ends_p1(s, w, h) == 1);
        }
        if ends_p2(t, w, h) == 1 {
            let x = choose|x: Line| t.contains(x) && x.p2.w == w && x.p2.h == h;
            assert(ends_p2(s, w, h) == 1);
        }
    }
}

/// A line open at its `p1` end only keeps an owner of the same kind after a step of the row
/// that leaves that end empty.
pub proof fn lemma_one_owner_persists(
    b: Seq<u8>,
    f: int,
    pos: BoardPos,
    sign: bool,
    s: Seq<Line>,
    s2: Seq<Line>,
    w: int,
    h: int,
)
    requires
        step_pre(b, f, pos, s),
        row_good(
            put(b, pos.w as int, pos.h as int, color(sign)),
            f,
            row_of(f, pos.w as int, pos.h as int),
            s2,
        ),
        at(b, w, h) == 0,
        !(w == pos.w && h == pos.h),
        has_one_owner(s, w, h),
    ensures
        has_one_owner(s2, w, h),
{
    reveal(step_pre);
    reveal(row_good);
    let c = color(sign);
    let w0 = pos.w as int;
    let h0 = pos.h as int;
    let b2 = put(b, w0, h0, c);
    let r = row_of(f, w0, h0);
    let t0 = along(f, w0, h0);
    let x = choose|x: Line| s.contains(x) && !x.both() && x.p1.w == w && x.p1.h == h;
    assert(line_ok(b, f, r, x));
    let t = x.a1(f);
    assert(at_rt(b, f, r, t) == 0);
    assert(x.a2(f) != t0) by {
        lemma_near(b, f, pos, c);
    }
    assert(t != t0);
    lemma_kept_line_ok(b, f, r, x, w0, h0, c);
    lemma_near(b, f, pos, c);
    assert(at_rt(b2, f, r, t) == 0);
    assert(is_stone(at_rt(b2, f, r, t - 1)));
    assert(has_p1(s2, f, t));
    let y = choose|y: Line| s2.contains(y) && #[trigger] y.a1(f) == t;
    assert(line_ok(b2, f, r, y));
    assert(!y.both());
    assert(y.p1.w == w && y.p1.h == h);
}

/// An empty cell that is the `p1` end of a line open at both ends has no owner open at that
/// end only.
pub proof fn lemma_no_one_owner(b: Seq<u8>, f: int, r: int, s: Seq<Line>, w: int, h: int)
    requires
        row_good(b, f, r, s),
        at(b, w, h) == 0,
        exists|m: Line| s.contains(m) && m.both() && m.p1.w == w && m.p1.h == h,
    ensures
        !has_one_owner(s, w, h),
{
    reveal(row_good);
    let m = choose|m: Line| s.contains(m) && m.both() && m.p1.w == w && m.p1.h == h;
    if has_one_owner(s, w, h) {
        let x = choose|x: Line| s.contains(x) && !x.both() && x.p1.w == w && x.p1.h == h;
        assert(line_ok(b, f, r, m) && line_ok(b, f, r, x));
        assert(at_rt(b, f, r, m.a1(f)) == 0);
        assert(x == m);
    }
}

/// A win in one family is a win.
proof fn lemma_step_win(b: Seq<u8>, f: int, pos: BoardPos, sign: bool)
    requires
        0 <= f < 4,
        exists|s: Seq<Line>, s2: Seq<Line>, d0: Seq<(usize, i16)>, d: Seq<(usize, i16)>|
            step_post(b, f, pos, sign, s, s2, d0, d, true),
    ensures
        wins_at(put(b, pos.w as int, pos.h as int, color(sign)), pos.w as int, pos.h as int, color(sign)),
{
    reveal(step_post);
}

/// No win in any of the four families is no win.
pub proof fn lemma_step_no_win(
    b: Seq<u8>,
    pos: BoardPos,
    sign: bool,
    s0: Seq<Line>,
    t0: Seq<Line>,
    s1: Seq<Line>,
    t1: Seq<Line>,
    s2: Seq<Line>,
    t2: Seq<Line>,
    s3: Seq<Line>,
    t3: Seq<Line>,
    d0: Seq<(usize, i16)>,
    d1: Seq<(usize, i16)>,
    d2: Seq<(usize, i16)>,
    d3: Seq<(usize, i16)>,
    d4: Seq<(usize, i16)>,
)
    requires
        step_post(b, 0, pos, sign, s0, t0, d0, d1, false),
        step_post(b, 1, pos, sign, s1, t1, d1, d2, false),
        step_post(b, 2, pos, sign, s2, t2, d2, d3, false),
        step_post(b, 3, pos, sign, s3, t3, d3, d4, false),
    ensures
        !wins_at(put(b, pos.w as int, pos.h as int, color(sign)), pos.w as int, pos.h as int, color(sign)),
{
    reveal(step_post);
}

/// The parts of the promise of a row step without a win.
pub proof fn lemma_step_post_parts(
    b: Seq<u8>,
    f: int,
    pos: BoardPos,
    sign: bool,
    s: Seq<Line>,
    s2: Seq<Line>,
    d0: Seq<(usize, i16)>,
    d: Seq<(usize, i16)>,
)
    requires
        step_post(b, f, pos, sign, s, s2, d0, d, false),
    ensures
        row_good(put(b, pos.w as int, pos.h as int, color(sign)), f, row_of(f, pos.w as int, pos.h as int), s2),
        exists|e: Seq<(usize, i16)>, qw: int, qh: int, z: int|
            d == d0 + e && e.len() <= 4 && changes_small(e) && values_step(b, pos, s, s2, e, qw, qh, z),
{
    reveal(step_post);
}

/// A row that the new stone is not in stays correct.
pub proof fn lemma_row_good_frame(b: Seq<u8>, f: int, r: int, s: Seq<Line>, pos: BoardPos, c: int)
    requires
        board_ok(b),
        0 <= f < 4,
        pos.on_board(),
        is_stone(c),
        row_good(b, f, r, s),
        r != row_of(f, pos.w as int, pos.h as int),
    ensures
        row_good(put(b, pos.w as int, pos.h as int, c), f, r, s),
{
    reveal(row_good);
    let b2 = put(b, pos.w as int, pos.h as int, c);
    lemma_at_rt_put_all(b, pos.w as int, pos.h as int, c);
    assert forall|t: int| #[trigger] at_rt(b2, f, r, t) == at_rt(b, f, r, t) by {}
    assert forall|x: Line| s.contains(x) implies line_ok(b2, f, r, x) by {
        assert(line_ok(b, f, r, x));
        assert(at_rt(b2, f, r, x.a1(f)) == at_rt(b, f, r, x.a1(f)));
        assert(at_rt(b2, f, r, x.a2(f)) == at_rt(b, f, r, x.a2(f)));
        assert(at_rt(b2, f, r, x.a1(f) - 1) == at_rt(b, f, r, x.a1(f) - 1));
        assert(at_rt(b2, f, r, x.a1(f) - 2) == at_rt(b, f, r, x.a1(f) - 2));
        assert(at_rt(b2, f, r, x.a1(f) - 3) == at_rt(b, f, r, x.a1(f) - 3));
        assert(at_rt(b2, f, r, x.a1(f) - x.n() - 1) == at_rt(b, f, r, x.a1(f) - x.n() - 1));
        assert(at_rt(b2, f, r, x.a2(f) + 1) == at_rt(b, f, r, x.a2(f) + 1));
        assert(at_rt(b2, f, r, x.a2(f) + 2) == at_rt(b, f, r, x.a2(f) + 2));
        assert(at_rt(b2, f, r, x.a2(f) + 3) == at_rt(b, f, r, x.a2(f) + 3));
        assert(at_rt(b2, f, r, x.a2(f) + x.n() + 1) == at_rt(b, f, r, x.a2(f) + x.n() + 1));
    }
    assert forall|t: int|
        at_rt(b2, f, r, t) == 0 && is_stone(at_rt(b2, f, r, t - 1)) implies #[trigger] has_p1(s, f, t) by {
        assert(at_rt(b2, f, r, t - 1) == at_rt(b, f, r, t - 1));
    }
    assert forall|t: int|
        at_rt(b2, f, r, t) == 0 && is_stone(at_rt(b2, f, r, t + 1)) implies #[trigger] has_p2(s, f, t) by {
        assert(at_rt(b2, f, r, t + 1) == at_rt(b, f, r, t + 1));
    }
}

/// A row without lines is correct on the board without stones.
pub proof fn lemma_row_good_empty(f: int, r: int)
    requires
        0 <= f < 4,
    ensures
        row_good(empty_board(), f, r, Seq::<Line>::empty()),
{
    reveal(row_good);
    let b = empty_board();
    assert forall|t: int| !is_stone(#[trigger] at_rt(b, f, r, t)) by {}
}

// ---------------------------------------------------------------------------------------
// The step of a row is right: laws over all rows and moves
// ---------------------------------------------------------------------------------------
/// Law: whatever the row and the move, the step `row_step` wins exactly when the stone makes
/// four in a row in this row, and otherwise its new lines are exactly the runs of the new
/// board that can still grow, and its value changes add to every other empty cell what the
/// row's lines add there after the move minus before.  A line open at one end adds the square
/// of its length at that end, one open at both ends twice that at each; the one excess allowed
/// is the square of the length of a line of the other player, open at both ends and closed at
/// its `p2` end by the stone, left at its `p1` end (the stone's own cell loses it).
pub proof fn lemma_row_step_sound(b: Seq<u8>, f: int, pos: BoardPos, sign: bool, s: Seq<Line>, d0: Seq<(usize, i16)>)
    requires
        step_pre(b, f, pos, s),
    ensures
        ({
            let t = row_step(f, pos, sign, s);
            step_post(b, f, pos, sign, s, t.1, d0, d0 + t.2, t.0)
        }),
{
    lemma_pre_basics(b, f, pos, s);
    let i1 = choose|i: int| 0 <= i < s.len() && #[trigger] s[i].p1 == pos;
    let i2 = choose|i: int| 0 <= i < s.len() && #[trigger] s[i].p2 == pos;
    if some_p1_at(s, pos) && some_p2_at(s, pos) {
        lemma_match_cases(b, f, pos, s, i1, i2);
        lemma_both_step_sound(b, f, pos, sign, s, i1, i2, d0);
    } else if some_p1_at(s, pos) {
        assert forall|x: Line| s.contains(x) implies x.p2 != pos by {
            let k = choose|k: int| 0 <= k < s.len() && s[k] == x;
            if x.p2 == pos {
                assert(some_p2_at(s, pos));
            }
        }
        lemma_match_cases(b, f, pos, s, i1, 0);
        lemma_p1_step_sound(b, f, pos, sign, s, i1, d0);
    } else if some_p2_at(s, pos) {
        assert forall|x: Line| s.contains(x) implies x.p1 != pos by {
            let k = choose|k: int| 0 <= k < s.len() && s[k] == x;
            if x.p1 == pos {
                assert(some_p1_at(s, pos));
            }
        }
        lemma_match_cases(b, f, pos, s, 0, i2);
        lemma_p2_step_sound(b, f, pos, sign, s, i2, d0);
    } else {
        assert forall|x: Line| s.contains(x) implies x.p1 != pos && x.p2 != pos by {
            let k = choose|k: int| 0 <= k < s.len() && s[k] == x;
            if x.p1 == pos {
                assert(some_p1_at(s, pos));
            }
            if x.p2 == pos {
                assert(some_p2_at(s, pos));
            }
        }
        lemma_match_cases(b, f, pos, s, 0, 0);
        lemma_none_step_sound(b, f, pos, sign, s, d0);
    }
}

/// The positions next to the stone, as `stepped` gives them, are its neighbours in the row.
proof fn lemma_stepped(f: int, pos: BoardPos)
    requires
        0 <= f < 4,
        pos.on_board(),
    ensures
        step_up(f, pos, stepped(pos, 2 * f)),
        step_down(f, pos, stepped(pos, 2 * f + 1)),
{
}

/// `lemma_row_step_sound` for a stone that no line ends at.
proof fn lemma_none_step_sound(b: Seq<u8>, f: int, pos: BoardPos, sign: bool, s: Seq<Line>, d0: Seq<(usize, i16)>)
    requires
        step_pre(b, f, pos, s),
        no_end_at(s, pos),
    ensures
        ({
            let t = none_step(f, pos, sign, s);
            step_post(b, f, pos, sign, s, t.1, d0, d0 + t.2, t.0)
        }),
{
    lemma_pre_basics(b, f, pos, s);
    lemma_stepped(f, pos);
    let p1 = stepped(pos, 2 * f);
    let p2 = stepped(pos, 2 * f + 1);
    if !p1.on_board() && !p2.on_board() {
        lemma_none_dead(b, f, pos, sign, s, p1, p2);
        lemma_step_post_intro(b, f, pos, sign, s, s, d0, Seq::empty(), 0, 0, 0);
    } else {
        lemma_none(b, f, pos, sign, s, p1, p2);
        lemma_step_post_intro(b, f, pos, sign, s, s.push(lone_line(p1, p2, sign)), d0, lone_changes(p1, p2), 0, 0, 0);
    }
}

/// `lemma_row_step_sound` for a stone at the `p1` end of line `i1` only.
proof fn lemma_p1_step_sound(b: Seq<u8>, f: int, pos: BoardPos, sign: bool, s: Seq<Line>, i1: int, d0: Seq<(usize, i16)>)
    requires
        p1_case(b, f, pos, s, i1),
    ensures
        ({
            let t = p1_step(f, pos, sign, s, i1);
            step_post(b, f, pos, sign, s, t.1, d0, d0 + t.2, t.0)
        }),
{
    lemma_p1_case_basics(b, f, pos, s, i1);
    lemma_pre_basics(b, f, pos, s);
    lemma_p1_facts(b, f, pos, s, i1);
    lemma_sq_small();
    lemma_stepped(f, pos);
    let l = s[i1];
    let p = stepped(pos, 2 * f);
    let t = p1_step(f, pos, sign, s, i1);
    if l.sign == sign {
        if l.len == M_LEN {
            lemma_p1_win(b, f, pos, sign, s, i1);
            lemma_step_post_win(b, f, pos, sign, s, d0);
            assert(d0 + t.2 =~= d0);
        } else if !l.both() {
            if p.on_board() {
                lemma_p1_grow_one(b, f, pos, sign, s, i1, p);
            } else {
                lemma_p1_dead(b, f, pos, sign, s, i1, p);
            }
            lemma_step_post_intro(b, f, pos, sign, s, t.1, d0, t.2, 0, 0, 0);
        } else {
            if p.on_board() {
                lemma_p1_grow_both(b, f, pos, sign, s, i1, p);
            } else {
                lemma_p1_grow_closed(b, f, pos, sign, s, i1, p);
            }
            lemma_step_post_intro(b, f, pos, sign, s, t.1, d0, t.2, 0, 0, 0);
        }
    } else {
        let q = stepped(pos, 2 * f + 1);
        lemma_p1_cut(b, f, pos, sign, s, i1, p, q);
        lemma_step_post_intro(b, f, pos, sign, s, t.1, d0, t.2, 0, 0, 0);
    }
}

/// `lemma_row_step_sound` for a stone at the `p2` end of line `i2` only.
proof fn lemma_p2_step_sound(b: Seq<u8>, f: int, pos: BoardPos, sign: bool, s: Seq<Line>, i2: int, d0: Seq<(usize, i16)>)
    requires
        p2_case(b, f, pos, s, i2),
    ensures
        ({
            let t = p2_step(f, pos, sign, s, i2);
            step_post(b, f, pos, sign, s, t.1, d0, d0 + t.2, t.0)
        }),
{
    lemma_p2_case_basics(b, f, pos, s, i2);
    lemma_pre_basics(b, f, pos, s);
    lemma_p2_facts(b, f, pos, s, i2);
    lemma_sq_small();
    lemma_stepped(f, pos);
    let l = s[i2];
    let p = stepped(pos, 2 * f + 1);
    let t = p2_step(f, pos, sign, s, i2);
    if l.sign == sign {
        if l.len == M_LEN {
            lemma_p2_win(b, f, pos, sign, s, i2);
            lemma_step_post_win(b, f, pos, sign, s, d0);
            assert(d0 + t.2 =~= d0);
        } else if !l.both() {
            if p.on_board() {
                lemma_p2_grow_one(b, f, pos, sign, s, i2, p);
            } else {
                lemma_p2_dead(b, f, pos, sign, s, i2, p);
            }
            lemma_step_post_intro(b, f, pos, sign, s, t.1, d0, t.2, 0, 0, 0);
        } else {
            if p.on_board() {
                lemma_p2_grow_both(b, f, pos, sign, s, i2, p);
            } else {
                lemma_p2_grow_closed(b, f, pos, sign, s, i2, p);
            }
            lemma_step_post_intro(b, f, pos, sign, s, t.1, d0, t.2, 0, 0, 0);
        }
    } else {
        let q = stepped(pos, 2 * f);
        lemma_p2_cut(b, f, pos, sign, s, i2, p, q);
        lemma_step_post_intro(b, f, pos, sign, s, t.1, d0, t.2, l.p1.w as int, l.p1.h as int, cut_p2_excess(l));
    }
}

/// `lemma_row_step_sound` for a stone at the `p1` end of line `i1` and the `p2` end of line
/// `i2`.
#[verifier::rlimit(60)]
proof fn lemma_both_step_sound(
    b: Seq<u8>,
    f: int,
    pos: BoardPos,
    sign: bool,
    s: Seq<Line>,
    i1: int,
    i2: int,
    d0: Seq<(usize, i16)>,
)
    requires
        both_case(b, f, pos, s, i1, i2),
    ensures
        ({
            let t = both_step(sign, s, i1, i2);
            step_post(b, f, pos, sign, s, t.1, d0, d0 + t.2, t.0)
        }),
{
    lemma_both_case_basics(b, f, pos, s, i1, i2);
    lemma_both_facts(b, f, pos, s, i1, i2);
    lemma_sq_small();
    let l1 = s[i1];
    let l2 = s[i2];
    let t = both_step(sign, s, i1, i2);
    if t.0 {
        lemma_both_win(b, f, pos, sign, s, i1, i2);
        lemma_step_post_win(b, f, pos, sign, s, d0);
        assert(d0 + t.2 =~= d0);
    } else if !l1.both() && !l2.both() {
        lemma_both_remove(b, f, pos, sign, s, i1, i2);
        lemma_step_post_intro(b, f, pos, sign, s, t.1, d0, t.2, 0, 0, 0);
    } else if l1.sign == sign && l2.sign == sign {
        if !l1.both() {
            lemma_both_join_p1(b, f, pos, sign, s, i1, i2);
        } else {
            lemma_both_join_p2(b, f, pos, sign, s, i1, i2);
        }
        lemma_both_post(b, f, pos, sign, s, t.1, d0, t.2);
    } else if l1.sign == sign {
        if !l1.both() {
            lemma_both_cut_p2(b, f, pos, sign, s, i1, i2);
        } else {
            lemma_both_grow_p1(b, f, pos, sign, s, i1, i2);
        }
        lemma_both_post(b, f, pos, sign, s, t.1, d0, t.2);
    } else if l2.sign == sign {
        if !l1.both() {
            lemma_both_grow_p2(b, f, pos, sign, s, i1, i2);
        } else {
            lemma_both_cut_p1(b, f, pos, sign, s, i1, i2);
        }
        lemma_both_post(b, f, pos, sign, s, t.1, d0, t.2);
    } else {
        if !l1.both() {
            lemma_both_cut_p2(b, f, pos, sign, s, i1, i2);
        } else {
            lemma_both_cut_p1(b, f, pos, sign, s, i1, i2);
        }
        lemma_both_post(b, f, pos, sign, s, t.1, d0, t.2);
    }
}

/// The length of a row of stones that is one short of winning.
pub const M_LEN: u8 = 3;

/// The square of a run length, as a cell value.
fn get_value(n: u8) -> (v: i16)
    requires
        n <= 181,
    ensures
        v == sq(n as int),
{
    assert(n * n <= 32761) by (nonlinear_arith)
        requires
            n <= 181,
    ;
    n as i16 * n as i16
}

/// Which lines of a row end at the new stone.
enum State {
    NONE,
    P1(usize),
    P2(usize),
    BOTH(usize, usize),
}

impl LineRow {
    pub fn new() -> (r: Self)
        ensures
            r.lines@ == Seq::<Line>::empty(),
    {
        LineRow { lines: Vec::new() }
    }

    /// The stone at `pos` touches no line of this row: it starts a line of its own, unless
    /// both positions next to it in this direction lie outside the board.
    fn none(
        dir: usize,
        pos: BoardPos,
        sign: bool,
        row: &mut LineRow,
        changes: &mut Vec<(usize, i16)>,
        Ghost(b): Ghost<Seq<u8>>,
    )
        requires
            dir < 4,
            pos.on_board(),
        ensures
            step_pre(b, dir as int, pos, old(row).lines@) && no_end_at(old(row).lines@, pos) ==> step_post(
                b,
                dir as int,
                pos,
                sign,
                old(row).lines@,
                final(row).lines@,
                old(changes)@,
                final(changes)@,
                false,
            ),
            does_step(none_step(dir as int, pos, sign, old(row).lines@), false, final(row).lines@, old(changes)@, final(changes)@),
    {
        let ghost s = row.lines@;
        let ghost d0 = changes@;
        let ghost good = step_pre(b, dir as int, pos, s) && no_end_at(s, pos);
        proof {
            if good {
                lemma_pre_basics(b, dir as int, pos, s);
            }
        }
        let p1 = direction(dir * 2).offset(pos);
        let p2 = direction(dir * 2 + 1).offset(pos);
        proof {
            assert(p1 == stepped(pos, 2 * dir as int));
            assert(p2 == stepped(pos, 2 * dir as int + 1));
        }
        // If the points are not in the field
        let active = if !p1.is_valid() {
            if !p2.is_valid() {
                proof {
                    let e = Seq::<(usize, i16)>::empty();
                    if good {
                        lemma_none_dead(b, dir as int, pos, sign, s, p1, p2);
                        lemma_step_post_intro(b, dir as int, pos, sign, s, s, d0, e, 0, 0, 0);
                    }
                    assert(d0 + e =~= d0);
                }
                return ;  // Both points are invalid -> not adding the line
            }
            changes.push((p2.get_usize(), 1));
            LineActive::ONE
        } else if !p2.is_valid() {
            changes.push((p1.get_usize(), 1));
            LineActive::ONE
        } else {
            changes.push((p1.get_usize(), 2));
            changes.push((p2.get_usize(), 2));
            LineActive::BOTH
        };
        row.lines.push(Line { p1, p2, active, sign, len: 1 });
        proof {
            if good {
                lemma_none(b, dir as int, pos, sign, s, p1, p2);
                lemma_step_post_intro(b, dir as int, pos, sign, s, s.push(lone_line(p1, p2, sign)), d0, lone_changes(p1, p2), 0, 0, 0);
            }
            assert(row.lines@ == s.push(lone_line(p1, p2, sign)));
            assert(changes@ =~= d0 + lone_changes(p1, p2));
        }
    }


    /// The stone at `pos` is at the open `p1` end of line `i1` (and at no `p2` end): a line of
    /// the same player grows or wins, a line of the other player is cut.
    #[verifier::rlimit(100)]
    fn p1(
        dir: usize,
        pos: BoardPos,
        sign: bool,
        i1: usize,
        row: &mut LineRow,
        changes: &mut Vec<(usize, i16)>,
        Ghost(b): Ghost<Seq<u8>>,
    ) -> (win: bool)
        requires
            p1_case(b, dir as int, pos, old(row).lines@, i1 as int),
        ensures
            step_post(
                b,
                dir as int,
                pos,
                sign,
                old(row).lines@,
                final(row).lines@,
                old(changes)@,
                final(changes)@,
                win,
            ),
            does_step(p1_step(dir as int, pos, sign, old(row).lines@, i1 as int), win, final(row).lines@, old(changes)@, final(changes)@),
    {
        let ghost s = row.lines@;
        let ghost d0 = changes@;
        let ghost f = dir as int;
        proof {
            lemma_p1_case_basics(b, f, pos, s, i1 as int);
            lemma_pre_basics(b, f, pos, s);
        }
        let mut l1 = row.lines[i1];
        proof {
            lemma_p1_facts(b, f, pos, s, i1 as int);
            lemma_sq_small();
        }
        // Making one long line
        if l1.sign == sign {
            if l1.len == M_LEN {
                proof {
                    lemma_p1_win(b, f, pos, sign, s, i1 as int);
                    lemma_step_post_win(b, f, pos, sign, s, d0);
                    assert(d0 + Seq::<(usize, i16)>::empty() =~= d0);
                }
                return true;
            }
            l1.p1 = direction(dir * 2).offset(pos);
            // Only active at pos
            if l1.active == LineActive::ONE {
                if l1.p1.is_valid() {
                    l1.len += 1;
                    row.lines.set(i1, l1);
                    changes.push((l1.p1.get_usize(), get_value(l1.len)));
                    proof {
                        lemma_p1_grow_one(b, f, pos, sign, s, i1 as int, l1.p1);
                        let s2 = s.update(i1 as int, with_p1(s[i1 as int], l1.p1, LineActive::ONE, s[i1 as int].n() + 1));
                        let e = seq![(l1.p1.index() as usize, sq(s[i1 as int].n() + 1) as i16)];
                        lemma_step_post_intro(b, f, pos, sign, s, s2, d0, e, 0, 0, 0);
                        assert(row.lines@ == s2);
                        assert(changes@ =~= d0 + e);
                    }
                } else {
                    row.lines.remove(i1);
                    proof {
                        lemma_p1_dead(b, f, pos, sign, s, i1 as int, l1.p1);
                        let e = Seq::<(usize, i16)>::empty();
                        lemma_step_post_intro(b, f, pos, sign, s, s.remove(i1 as int), d0, e, 0, 0, 0);
                        assert(changes@ =~= d0 + e);
                    }
                }
            }
            // Both active
            else {
                proof {
                    if l1.p1.on_board() {
                        lemma_p1_grow_both(b, f, pos, sign, s, i1 as int, l1.p1);
                    } else {
                        lemma_p1_grow_closed(b, f, pos, sign, s, i1 as int, l1.p1);
                    }
                }
                changes.push((l1.p2.get_usize(), -2 * get_value(l1.len)));
                if l1.p1.is_valid() {
                    l1.len += 1;
                    changes.push((l1.p1.get_usize(), 2 * get_value(l1.len)));
                    changes.push((l1.p2.get_usize(), 2 * get_value(l1.len)));
                    row.lines.set(i1, l1);
                    proof {
                        let l = s[i1 as int];
                        let s2 = s.update(i1 as int, with_p1(l, l1.p1, LineActive::BOTH, l.n() + 1));
                        let e = seq![
                            (l.p2.index() as usize, (-2 * sq(l.n())) as i16),
                            (l1.p1.index() as usize, (2 * sq(l.n() + 1)) as i16),
                            (l.p2.index() as usize, (2 * sq(l.n() + 1)) as i16),
                        ];
                        lemma_step_post_intro(b, f, pos, sign, s, s2, d0, e, 0, 0, 0);
                        assert(row.lines@ == s2);
                        assert(changes@ =~= d0 + e);
                    }
                } else {
                    l1.active = LineActive::ONE;
                    l1.len += 1;
                    changes.push((l1.p2.get_usize(), get_value(l1.len)));
                    row.lines.set(i1, l1);
                    proof {
                        let l = s[i1 as int];
                        let s2 = s.update(i1 as int, with_p1(l, l1.p1, LineActive::ONE, l.n() + 1));
                        let e = seq![
                            (l.p2.index() as usize, (-2 * sq(l.n())) as i16),
                            (l.p2.index() as usize, sq(l.n() + 1) as i16),
                        ];
                        lemma_step_post_intro(b, f, pos, sign, s, s2, d0, e, 0, 0, 0);
                        assert(row.lines@ == s2);
                        assert(changes@ =~= d0 + e);
                    }
                }
            }
        }
        // Ending the line at pos
        else {
            let q = pos.offset(direction(dir * 2 + 1));
            let pp = pos.offset(direction(dir * 2));
            proof {
                lemma_p1_cut(b, f, pos, sign, s, i1 as int, pp, q);
            }
            if l1.active == LineActive::ONE {
                row.lines.remove(i1);
            } else {
                changes.push((l1.p2.get_usize(), -get_value(l1.len)));
                l1.active = LineActive::ONE;
                row.lines.set(i1, l1);
            }
            // If next to pos is valid adding line to pos
            let p1 = pp;
            if p1.is_valid() {
                changes.push((p1.get_usize(), 1));
                row.lines.push(
                    Line {
                        p1,
                        p2: q,
                        active: LineActive::ONE,
                        sign,
                        len: 1,
                    },
                );
            }
            proof {
                lemma_step_post_intro(b, f, pos, sign, s, cut_p1_row(s, i1 as int, pp, q, sign), d0, cut_p1_changes(s[i1 as int], pp), 0, 0, 0);
                assert(row.lines@ == cut_p1_row(s, i1 as int, pp, q, sign));
                assert(changes@ =~= d0 + cut_p1_changes(s[i1 as int], pp));
            }
        }
        false
    }

    /// The stone at `pos` is at the open `p2` end of line `i2` (and at no `p1` end): a line of
    /// the same player grows or wins, a line of the other player is cut.
    #[verifier::rlimit(100)]
    fn p2(
        dir: usize,
        pos: BoardPos,
        sign: bool,
        i2: usize,
        row: &mut LineRow,
        changes: &mut Vec<(usize, i16)>,
        Ghost(b): Ghost<Seq<u8>>,
    ) -> (win: bool)
        requires
            p2_case(b, dir as int, pos, old(row).lines@, i2 as int),
        ensures
            step_post(
                b,
                dir as int,
                pos,
                sign,
                old(row).lines@,
                final(row).lines@,
                old(changes)@,
                final(changes)@,
                win,
            ),
            does_step(p2_step(dir as int, pos, sign, old(row).lines@, i2 as int), win, final(row).lines@, old(changes)@, final(changes)@),
    {
        let ghost s = row.lines@;
        let ghost d0 = changes@;
        let ghost f = dir as int;
        proof {
            lemma_p2_case_basics(b, f, pos, s, i2 as int);
            lemma_pre_basics(b, f, pos, s);
        }
        let mut l2 = row.lines[i2];
        proof {
            lemma_p2_facts(b, f, pos, s, i2 as int);
            lemma_sq_small();
        }
        // Making one long line
        if l2.sign == sign {
            if l2.len == M_LEN {
                proof {
                    lemma_p2_win(b, f, pos, sign, s, i2 as int);
                    lemma_step_post_win(b, f, pos, sign, s, d0);
                    assert(d0 + Seq::<(usize, i16)>::empty() =~= d0);
                }
                return true;
            }
            l2.p2 = direction(dir * 2 + 1).offset(pos);
            // Only active at pos
            if l2.active == LineActive::ONE {
                if l2.p2.is_valid() {
                    l2.len += 1;
                    row.lines.set(i2, l2);
                    changes.push((l2.p2.get_usize(), get_value(l2.len)));
                    proof {
                        lemma_p2_grow_one(b, f, pos, sign, s, i2 as int, l2.p2);
                        let s2 = s.update(i2 as int, with_p2(s[i2 as int], l2.p2, LineActive::ONE, s[i2 as int].n() + 1));
                        let e = seq![(l2.p2.index() as usize, sq(s[i2 as int].n() + 1) as i16)];
                        lemma_step_post_intro(b, f, pos, sign, s, s2, d0, e, 0, 0, 0);
                        assert(row.lines@ == s2);
                        assert(changes@ =~= d0 + e);
                    }
                } else {
                    row.lines.remove(i2);
                    proof {
                        lemma_p2_dead(b, f, pos, sign, s, i2 as int, l2.p2);
                        let e = Seq::<(usize, i16)>::empty();
                        lemma_step_post_intro(b, f, pos, sign, s, s.remove(i2 as int), d0, e, 0, 0, 0);
                        assert(changes@ =~= d0 + e);
                    }
                }
            }
            // Both active
            else {
                proof {
                    if l2.p2.on_board() {
                        lemma_p2_grow_both(b, f, pos, sign, s, i2 as int, l2.p2);
                    } else {
                        lemma_p2_grow_closed(b, f, pos, sign, s, i2 as int, l2.p2);
                    }
                }
                changes.push((l2.p1.get_usize(), -2 * get_value(l2.len)));
                if l2.p2.is_valid() {
                    l2.len += 1;
                    changes.push((l2.p1.get_usize(), 2 * get_value(l2.len)));
                    changes.push((l2.p2.get_usize(), 2 * get_value(l2.len)));
                    row.lines.set(i2, l2);
                    proof {
                        let l = s[i2 as int];
                        let s2 = s.update(i2 as int, with_p2(l, l2.p2, LineActive::BOTH, l.n() + 1));
                        let e = seq![
                            (l.p1.index() as usize, (-2 * sq(l.n())) as i16),
                            (l.p1.index() as usize, (2 * sq(l.n() + 1)) as i16),
                            (l2.p2.index() as usize, (2 * sq(l.n() + 1)) as i16),
                        ];
                        lemma_step_post_intro(b, f, pos, sign, s, s2, d0, e, 0, 0, 0);
                        assert(row.lines@ == s2);
                        assert(changes@ =~= d0 + e);
                    }
                } else {
                    l2.active = LineActive::ONE;
                    l2.len += 1;
                    changes.push((l2.p1.get_usize(), get_value(l2.len)));
                    row.lines.set(i2, l2);
                    proof {
                        let l = s[i2 as int];
                        let s2 = s.update(i2 as int, with_p2(l, l2.p2, LineActive::ONE, l.n() + 1));
                        let e = seq![
                            (l.p1.index() as usize, (-2 * sq(l.n())) as i16),
                            (l.p1.index() as usize, sq(l.n() + 1) as i16),
                        ];
                        lemma_step_post_intro(b, f, pos, sign, s, s2, d0, e, 0, 0, 0);
                        assert(row.lines@ == s2);
                        assert(changes@ =~= d0 + e);
                    }
                }
            }
        }
        // Ending the line at pos
        else {
            let q = pos.offset(direction(dir * 2));
            let pp = pos.offset(direction(dir * 2 + 1));
            proof {
                lemma_p2_cut(b, f, pos, sign, s, i2 as int, pp, q);
            }
            if l2.active == LineActive::ONE {
                row.lines.remove(i2);
            } else {
                changes.push((l2.p2.get_usize(), -get_value(l2.len)));
                l2.active = LineActive::ONE;
                row.lines.set(i2, l2);
            }
            // If next to pos is valid adding line to pos
            let p2 = pp;
            if p2.is_valid() {
                changes.push((p2.get_usize(), 1));
                row.lines.push(
                    Line {
                        p1: q,
                        p2,
                        active: LineActive::ONE,
                        sign,
                        len: 1,
                    },
                );
            }
            proof {
                let l = s[i2 as int];
                lemma_step_post_intro(
                    b,
                    f,
                    pos,
                    sign,
                    s,
                    cut_p2_row(s, i2 as int, pp, q, sign),
                    d0,
                    cut_p2_changes(l, pp),
                    l.p1.w as int,
                    l.p1.h as int,
                    cut_p2_excess(l),
                );
                assert(row.lines@ == cut_p2_row(s, i2 as int, pp, q, sign));
                assert(changes@ =~= d0 + cut_p2_changes(l, pp));
            }
        }
        false
    }

    /// The stone at `pos` is at the open `p1` end of line `i1` and at the open `p2` end of line
    /// `i2`: the two lines and the stone join, grow, close or win.  Both lines are changed in
    /// the row itself: each changed line is written back before any line is removed, so a
    /// join through the stone leaves one longer line (and a later stone can win with it).
    #[verifier::rlimit(100)]
    fn both(
        sign: bool,
        i1: usize,
        i2: usize,
        row: &mut LineRow,
        changes: &mut Vec<(usize, i16)>,
        Ghost(b): Ghost<Seq<u8>>,
        Ghost(f): Ghost<int>,
        Ghost(pos): Ghost<BoardPos>,
    ) -> (win: bool)
        requires
            both_case(b, f, pos, old(row).lines@, i1 as int, i2 as int),
        ensures
            step_post(b, f, pos, sign, old(row).lines@, final(row).lines@, old(changes)@, final(changes)@, win),
            does_step(both_step(sign, old(row).lines@, i1 as int, i2 as int), win, final(row).lines@, old(changes)@, final(changes)@),
    {
        let ghost s = row.lines@;
        let ghost d0 = changes@;
        proof {
            lemma_both_case_basics(b, f, pos, s, i1 as int, i2 as int);
        }
        // The two lines are distinct and the lines are only removed at the end.
        let mut l2 = row.lines[i2];
        let mut l1 = row.lines[i1];
        proof {
            lemma_both_facts(b, f, pos, s, i1 as int, i2 as int);
            lemma_sq_small();
        }
        let ghost c = color(sign);
        let (hi, lo) = if i1 > i2 {
            (i1, i2)
        } else {
            (i2, i1)
        };
        if l1.sign == sign {
            if l2.sign == sign {
                if l1.active == LineActive::ONE {
                    // -|O 0 O|- remove lines
                    if l2.active == LineActive::ONE {
                        if l1.len + l2.len + 1 > M_LEN {
                            proof {
                                lemma_both_win(b, f, pos, sign, s, i1 as int, i2 as int);
                                lemma_step_post_win(b, f, pos, sign, s, d0);
                                assert(d0 + Seq::<(usize, i16)>::empty() =~= d0);
                            }
                            return true;
                        }
                        row.lines.remove(hi);
                        row.lines.remove(lo);
                        proof {
                            lemma_both_remove(b, f, pos, sign, s, i1 as int, i2 as int);
                            let e = Seq::<(usize, i16)>::empty();
                            lemma_step_post_intro(b, f, pos, sign, s, row.lines@, d0, e, 0, 0, 0);
                            assert(changes@ =~= d0 + e);
                        }
                    }
                    // -|O 0 O- L1 gets longer
                    else {
                        if l1.len + l2.len + 1 > M_LEN {
                            proof {
                                lemma_both_win(b, f, pos, sign, s, i1 as int, i2 as int);
                                lemma_step_post_win(b, f, pos, sign, s, d0);
                                assert(d0 + Seq::<(usize, i16)>::empty() =~= d0);
                            }
                            return true;
                        }
                        proof {
                            lemma_both_join_p1(b, f, pos, sign, s, i1 as int, i2 as int);
                        }
                        changes.push((l2.p1.get_usize(), -2 * get_value(l2.len)));
                        l1.len += l2.len + 1;
                        l1.p1 = l2.p1;
                        changes.push((l1.p1.get_usize(), get_value(l1.len)));
                        row.lines.set(i1, l1);
                        row.lines.remove(i2);
                        proof {
                            let (l1s, l2s) = (s[i1 as int], s[i2 as int]);
                            let y = with_p1(l1s, l2s.p1, LineActive::ONE, l1s.n() + l2s.n() + 1);
                            let e = seq![(l2s.p1.index() as usize, (-2 * sq(l2s.n())) as i16), (l2s.p1.index() as usize, sq(l1s.n() + l2s.n() + 1) as i16)];
                            lemma_both_post(b, f, pos, sign, s, s.update(i1 as int, y).remove(i2 as int), d0, e);
                            assert(row.lines@ == s.update(i1 as int, y).remove(i2 as int));
                            assert(changes@ =~= d0 + e);
                        }
                    }
                } else {
                    // -O 0 O|- L2 gets longer
                    if l2.active == LineActive::ONE {
                        if l2.len + l1.len + 1 > M_LEN {
                            proof {
                                lemma_both_win(b, f, pos, sign, s, i1 as int, i2 as int);
                                lemma_step_post_win(b, f, pos, sign, s, d0);
                                assert(d0 + Seq::<(usize, i16)>::empty() =~= d0);
                            }
                            return true;
                        }
                        proof {
                            lemma_both_join_p2(b, f, pos, sign, s, i1 as int, i2 as int);
                        }
                        changes.push((l1.p2.get_usize(), -2 * get_value(l1.len)));
                        l2.len += l1.len + 1;
                        l2.p2 = l1.p2;
                        changes.push((l2.p2.get_usize(), get_value(l2.len)));
                        row.lines.set(i2, l2);
                        row.lines.remove(i1);
                        proof {
                            let (l1s, l2s) = (s[i1 as int], s[i2 as int]);
                            let y = with_p2(l2s, l1s.p2, LineActive::ONE, l1s.n() + l2s.n() + 1);
                            let e = seq![(l1s.p2.index() as usize, (-2 * sq(l1s.n())) as i16), (l1s.p2.index() as usize, sq(l1s.n() + l2s.n() + 1) as i16)];
                            lemma_both_post(b, f, pos, sign, s, s.update(i2 as int, y).remove(i1 as int), d0, e);
                            assert(row.lines@ == s.update(i2 as int, y).remove(i1 as int));
                            assert(changes@ =~= d0 + e);
                        }
                    }
                    // -O0O- One long line
                    else {
                        proof {
                            // Both open ends would lie on the board, too far apart.
                            assert(false);
                        }
                        if l1.len + l2.len + 1 > M_LEN {
                            return true;
                        }
                        changes.push((l1.p2.get_usize(), -2 * get_value(l1.len)));
                        changes.push((l2.p1.get_usize(), -2 * get_value(l2.len)));
                        l1.p1 = l2.p1;
                        l1.len += l2.len + 1;
                        changes.push((l1.p1.get_usize(), 2 * get_value(l1.len)));
                        changes.push((l1.p2.get_usize(), 2 * get_value(l1.len)));
                        row.lines.set(i1, l1);
                    }
                }
            } else {
                if l1.active == LineActive::ONE {
                    // -|O 0 X|- removing both
                    if l2.active == LineActive::ONE {
                        if l1.len == M_LEN {
                            proof {
                                lemma_both_win(b, f, pos, sign, s, i1 as int, i2 as int);
                                lemma_step_post_win(b, f, pos, sign, s, d0);
                                assert(d0 + Seq::<(usize, i16)>::empty() =~= d0);
                            }
                            return true;
                        }
                        row.lines.remove(hi);
                        row.lines.remove(lo);
                        proof {
                            lemma_both_remove(b, f, pos, sign, s, i1 as int, i2 as int);
                            let e = Seq::<(usize, i16)>::empty();
                            lemma_step_post_intro(b, f, pos, sign, s, row.lines@, d0, e, 0, 0, 0);
                            assert(changes@ =~= d0 + e);
                        }
                    }
                    // -|O 0 X- removing L1; update L2
                    else {
                        if l1.len == M_LEN {
                            proof {
                                lemma_both_win(b, f, pos, sign, s, i1 as int, i2 as int);
                                lemma_step_post_win(b, f, pos, sign, s, d0);
                                assert(d0 + Seq::<(usize, i16)>::empty() =~= d0);
                            }
                            return true;
                        }
                        proof {
                            lemma_both_cut_p2(b, f, pos, sign, s, i1 as int, i2 as int);
                        }
                        l2.active = LineActive::ONE;
                        changes.push((l2.p1.get_usize(), -get_value(l2.len)));
                        row.lines.set(i2, l2);
                        row.lines.remove(i1);
                        proof {
                            let l2s = s[i2 as int];
                            let y = with_p2(l2s, l2s.p2, LineActive::ONE, l2s.n());
                            let e = seq![(l2s.p1.index() as usize, (-sq(l2s.n())) as i16)];
                            lemma_both_post(b, f, pos, sign, s, s.update(i2 as int, y).remove(i1 as int), d0, e);
                            assert(row.lines@ == s.update(i2 as int, y).remove(i1 as int));
                            assert(changes@ =~= d0 + e);
                        }
                    }
                } else {
                    // -O 0 X|- update L1; remove L2
                    if l2.active == LineActive::ONE {
                        if l1.len == M_LEN {
                            proof {
                                lemma_both_win(b, f, pos, sign, s, i1 as int, i2 as int);
                                lemma_step_post_win(b, f, pos, sign, s, d0);
                                assert(d0 + Seq::<(usize, i16)>::empty() =~= d0);
                            }
                            return true;
                        }
                        proof {
                            lemma_both_grow_p1(b, f, pos, sign, s, i1 as int, i2 as int);
                        }
                        changes.push((l1.p2.get_usize(), -2 * get_value(l1.len)));
                        l1.active = LineActive::ONE;
                        l1.len += 1;
                        changes.push((l1.p2.get_usize(), get_value(l1.len)));
                        row.lines.set(i1, l1);
                        row.lines.remove(i2);
                        proof {
                            let l1s = s[i1 as int];
                            let y = with_p1(l1s, l1s.p1, LineActive::ONE, l1s.n() + 1);
                            let e = seq![(l1s.p2.index() as usize, (-2 * sq(l1s.n())) as i16), (l1s.p2.index() as usize, sq(l1s.n() + 1) as i16)];
                            lemma_both_post(b, f, pos, sign, s, s.update(i1 as int, y).remove(i2 as int), d0, e);
                            assert(row.lines@ == s.update(i1 as int, y).remove(i2 as int));
                            assert(changes@ =~= d0 + e);
                        }
                    }
                    // -O 0 X- update both
                    else {
                        proof {
                            assert(false);
                        }
                        if l1.len == M_LEN {
                            return true;
                        }
                        changes.push((l2.p1.get_usize(), -get_value(l2.len)));
                        changes.push((l1.p2.get_usize(), -2 * get_value(l1.len)));
                        l2.active = LineActive::ONE;
                        l1.active = LineActive::ONE;
                        l1.len += 1;
                        changes.push((l1.p2.get_usize(), get_value(l1.len)));
                        row.lines.set(i1, l1);
                        row.lines.set(i2, l2);
                    }
                }
            }
        } else {
            if l2.sign == sign {
                if l1.active == LineActive::ONE {
                    // -|X 0 O|- removing both
                    if l2.active == LineActive::ONE {
                        if l2.len == M_LEN {
                            proof {
                                lemma_both_win(b, f, pos, sign, s, i1 as int, i2 as int);
                                lemma_step_post_win(b, f, pos, sign, s, d0);
                                assert(d0 + Seq::<(usize, i16)>::empty() =~= d0);
                            }
                            return true;
                        }
                        row.lines.remove(hi);
                        row.lines.remove(lo);
                        proof {
                            lemma_both_remove(b, f, pos, sign, s, i1 as int, i2 as int);
                            let e = Seq::<(usize, i16)>::empty();
                            lemma_step_post_intro(b, f, pos, sign, s, row.lines@, d0, e, 0, 0, 0);
                            assert(changes@ =~= d0 + e);
                        }
                    }
                    // -|X 0 O- removing L1; update L2
                    else {
                        if l2.len == M_LEN {
                            proof {
                                lemma_both_win(b, f, pos, sign, s, i1 as int, i2 as int);
                                lemma_step_post_win(b, f, pos, sign, s, d0);
                                assert(d0 + Seq::<(usize, i16)>::empty() =~= d0);
                            }
                            return true;
                        }
                        proof {
                            lemma_both_grow_p2(b, f, pos, sign, s, i1 as int, i2 as int);
                        }
                        changes.push((l2.p1.get_usize(), -2 * get_value(l2.len)));
                        l2.active = LineActive::ONE;
                        l2.len += 1;
                        changes.push((l2.p1.get_usize(), get_value(l2.len)));
                        row.lines.set(i2, l2);
                        row.lines.remove(i1);
                        proof {
                            let l2s = s[i2 as int];
                            let y = with_p2(l2s, l2s.p2, LineActive::ONE, l2s.n() + 1);
                            let e = seq![(l2s.p1.index() as usize, (-2 * sq(l2s.n())) as i16), (l2s.p1.index() as usize, sq(l2s.n() + 1) as i16)];
                            lemma_both_post(b, f, pos, sign, s, s.update(i2 as int, y).remove(i1 as int), d0, e);
                            assert(row.lines@ == s.update(i2 as int, y).remove(i1 as int));
                            assert(changes@ =~= d0 + e);
                        }
                    }
                } else {
                    // -X 0 O|- update L1; remove L2
                    if l2.active == LineActive::ONE {
                        if l2.len == M_LEN {
                            proof {
                                lemma_both_win(b, f, pos, sign, s, i1 as int, i2 as int);
                                lemma_step_post_win(b, f, pos, sign, s, d0);
                                assert(d0 + Seq::<(usize, i16)>::empty() =~= d0);
                            }
                            return true;
                        }
                        proof {
                            lemma_both_cut_p1(b, f, pos, sign, s, i1 as int, i2 as int);
                        }
                        l1.active = LineActive::ONE;
                        changes.push((l1.p2.get_usize(), -get_value(l1.len)));
                        row.lines.set(i1, l1);
                        row.lines.remove(i2);
                        proof {
                            let l1s = s[i1 as int];
                            let y = with_p1(l1s, l1s.p1, LineActive::ONE, l1s.n());
                            let e = seq![(l1s.p2.index() as usize, (-sq(l1s.n())) as i16)];
                            lemma_both_post(b, f, pos, sign, s, s.update(i1 as int, y).remove(i2 as int), d0, e);
                            assert(row.lines@ == s.update(i1 as int, y).remove(i2 as int));
                            assert(changes@ =~= d0 + e);
                        }
                    }
                    // -X 0 O- update both
                    else {
                        proof {
                            assert(false);
                        }
                        if l2.len == M_LEN {
                            return true;
                        }
                        changes.push((l2.p1.get_usize(), -2 * get_value(l2.len)));
                        changes.push((l1.p2.get_usize(), -get_value(l1.len)));
                        l1.active = LineActive::ONE;
                        l2.active = LineActive::ONE;
                        l2.len += 1;
                        changes.push((l2.p1.get_usize(), get_value(l2.len)));
                        row.lines.set(i1, l1);
                        row.lines.set(i2, l2);
                    }
                }
            } else {
                if l1.active == LineActive::ONE {
                    // -|X 0 X|- removing both
                    if l2.active == LineActive::ONE {
                        row.lines.remove(hi);
                        row.lines.remove(lo);
                        proof {
                            lemma_both_remove(b, f, pos, sign, s, i1 as int, i2 as int);
                            let e = Seq::<(usize, i16)>::empty();
                            lemma_step_post_intro(b, f, pos, sign, s, row.lines@, d0, e, 0, 0, 0);
                            assert(changes@ =~= d0 + e);
                        }
                    }
                    // -|X 0 X- removing L1; update L2
                    else {
                        proof {
                            lemma_both_cut_p2(b, f, pos, sign, s, i1 as int, i2 as int);
                        }
                        l2.active = LineActive::ONE;
                        changes.push((l2.p1.get_usize(), -get_value(l2.len)));
                        row.lines.set(i2, l2);
                        row.lines.remove(i1);
                        proof {
                            let l2s = s[i2 as int];
                            let y = with_p2(l2s, l2s.p2, LineActive::ONE, l2s.n());
                            let e = seq![(l2s.p1.index() as usize, (-sq(l2s.n())) as i16)];
                            lemma_both_post(b, f, pos, sign, s, s.update(i2 as int, y).remove(i1 as int), d0, e);
                            assert(row.lines@ == s.update(i2 as int, y).remove(i1 as int));
                            assert(changes@ =~= d0 + e);
                        }
                    }
                } else {
                    // -X 0 X|- update L1; remove L2
                    if l2.active == LineActive::ONE {
                        proof {
                            lemma_both_cut_p1(b, f, pos, sign, s, i1 as int, i2 as int);
                        }
                        l1.active = LineActive::ONE;
                        changes.push((l1.p2.get_usize(), -get_value(l1.len)));
                        row.lines.set(i1, l1);
                        row.lines.remove(i2);
                        proof {
                            let l1s = s[i1 as int];
                            let y = with_p1(l1s, l1s.p1, LineActive::ONE, l1s.n());
                            let e = seq![(l1s.p2.index() as usize, (-sq(l1s.n())) as i16)];
                            lemma_both_post(b, f, pos, sign, s, s.update(i1 as int, y).remove(i2 as int), d0, e);
                            assert(row.lines@ == s.update(i1 as int, y).remove(i2 as int));
                            assert(changes@ =~= d0 + e);
                        }
                    }
                    // -X 0 X- update both
                    else {
                        proof {
                            assert(false);
                        }
                        changes.push((l1.p2.get_usize(), -get_value(l1.len)));
                        changes.push((l2.p1.get_usize(), -get_value(l2.len)));
                        l1.active = LineActive::ONE;
                        l2.active = LineActive::ONE;
                        row.lines.set(i1, l1);
                        row.lines.set(i2, l2);
                    }
                }
            }
        }
        false
    }

    /// Puts a stone of `sign` at `pos` into this row of direction `dir`: finds the lines that
    /// end at `pos` and updates them.  Returns whether the stone makes `WIN_LEN` in a row.
    fn update_row(
        dir: usize,
        pos: BoardPos,
        sign: bool,
        row: &mut LineRow,
        changes: &mut Vec<(usize, i16)>,
        Ghost(b): Ghost<Seq<u8>>,
    ) -> (win: bool)
        requires
            dir < 4,
            pos.on_board(),
            step_pre(b, dir as int, pos, old(row).lines@),
        ensures
            step_post(b, dir as int, pos, sign, old(row).lines@, final(row).lines@, old(changes)@, final(changes)@, win),
            does_step(row_step(dir as int, pos, sign, old(row).lines@), win, final(row).lines@, old(changes)@, final(changes)@),
    {
        let ghost s = row.lines@;
        let ghost f = dir as int;
        let mut state = State::NONE;
        let n = row.lines.len();
        let mut i: usize = 0;
        while i < n
            invariant
                row.lines@ == s,
                n == s.len(),
                i <= n,
                step_pre(b, f, pos, s),
                match state {
                    State::NONE => forall|k: int| 0 <= k < i ==> s[k].p1 != pos && s[k].p2 != pos,
                    State::P1(a) => a < i && s[a as int].p1 == pos && forall|k: int| 0 <= k < i ==> s[k].p2 != pos,
                    State::P2(a) => a < i && s[a as int].p2 == pos && forall|k: int| 0 <= k < i ==> s[k].p1 != pos,
                    State::BOTH(a, c) => a < i && c < i && s[a as int].p1 == pos && s[c as int].p2 == pos,
                },
            decreases n - i,
        {
            if row.lines[i].p1 == pos {
                proof {
                    lemma_match_not_both_ends(b, f, pos, s, i as int);
                }
                state = match state {
                    State::NONE => State::P1(i),
                    State::P2(i2) => State::BOTH(i, i2),
                    _ => {
                        // Two lines with the same open `p1` end cannot exist.
                        proof {
                            match state {
                                State::P1(a) => lemma_match_p1_unique(b, f, pos, s, a as int, i as int),
                                State::BOTH(a, c) => lemma_match_p1_unique(b, f, pos, s, a as int, i as int),
                                _ => {},
                            }
                        }
                        state
                    },
                };
            }
            if row.lines[i].p2 == pos {
                state = match state {
                    State::NONE => State::P2(i),
                    State::P1(i1) => State::BOTH(i1, i),
                    _ => {
                        // Two lines with the same open `p2` end cannot exist.
                        proof {
                            match state {
                                State::P2(a) => lemma_match_p2_unique(b, f, pos, s, a as int, i as int),
                                State::BOTH(a, c) => lemma_match_p2_unique(b, f, pos, s, c as int, i as int),
                                _ => {},
                            }
                        }
                        state
                    },
                };
            }
            i += 1;
        }
        proof {
            match state {
                State::NONE => {
                    assert forall|x: Line| s.contains(x) implies x.p1 != pos && x.p2 != pos by {
                        let k = choose|k: int| 0 <= k < s.len() && s[k] == x;
                    }
                    lemma_match_cases(b, f, pos, s, 0, 0);
                    assert(!some_p1_at(s, pos));
                    assert(!some_p2_at(s, pos));
                },
                State::P1(a) => {
                    assert forall|x: Line| s.contains(x) implies x.p2 != pos by {
                        let k = choose|k: int| 0 <= k < s.len() && s[k] == x;
                    }
                    lemma_match_cases(b, f, pos, s, a as int, 0);
                    assert(s[a as int].p1 == pos);
                    assert(some_p1_at(s, pos));
                    assert(!some_p2_at(s, pos));
                    let i1 = choose|i: int| 0 <= i < s.len() && #[trigger] s[i].p1 == pos;
                    lemma_match_p1_unique(b, f, pos, s, a as int, i1);
                },
                State::P2(a) => {
                    assert forall|x: Line| s.contains(x) implies x.p1 != pos by {
                        let k = choose|k: int| 0 <= k < s.len() && s[k] == x;
                    }
                    lemma_match_cases(b, f, pos, s, 0, a as int);
                    assert(s[a as int].p2 == pos);
                    assert(some_p2_at(s, pos));
                    assert(!some_p1_at(s, pos));
                    let i2 = choose|i: int| 0 <= i < s.len() && #[trigger] s[i].p2 == pos;
                    lemma_match_p2_unique(b, f, pos, s, a as int, i2);
                },
                State::BOTH(a, c) => {
                    lemma_match_cases(b, f, pos, s, a as int, c as int);
                    assert(s[a as int].p1 == pos);
                    assert(s[c as int].p2 == pos);
                    assert(some_p1_at(s, pos));
                    assert(some_p2_at(s, pos));
                    let i1 = choose|i: int| 0 <= i < s.len() && #[trigger] s[i].p1 == pos;
                    let i2 = choose|i: int| 0 <= i < s.len() && #[trigger] s[i].p2 == pos;
                    lemma_match_p1_unique(b, f, pos, s, a as int, i1);
                    lemma_match_p2_unique(b, f, pos, s, c as int, i2);
                },
            }
        }
        match state {
            State::NONE => {
                Self::none(dir, pos, sign, row, changes, Ghost(b));
                false
            },
            State::P1(i1) => Self::p1(dir, pos, sign, i1, row, changes, Ghost(b)),
            State::P2(i2) => Self::p2(dir, pos, sign, i2, row, changes, Ghost(b)),
            State::BOTH(i1, i2) => Self::both(sign, i1, i2, row, changes, Ghost(b), Ghost(f), Ghost(pos)),
        }
    }

    /// Puts a stone of `sign` at `pos` into the four rows through `pos` (left-right, up-down,
    /// left-up to right-down, right-up to left-down).  Returns `None` when the stone makes
    /// `WIN_LEN` in a row, and the value changes of the cells otherwise.
    pub fn update_rows(
        lr: &mut LineRow,
        ud: &mut LineRow,
        lu_rd: &mut LineRow,
        ru_ld: &mut LineRow,
        pos: BoardPos,
        sign: bool,
        Ghost(b): Ghost<Seq<u8>>,
    ) -> (res: Option<Vec<(usize, i16)>>)
        requires
            pos.on_board(),
            step_pre(b, 0, pos, old(lr).lines@),
            step_pre(b, 1, pos, old(ud).lines@),
            step_pre(b, 2, pos, old(lu_rd).lines@),
            step_pre(b, 3, pos, old(ru_ld).lines@),
        ensures
            res is None <==> wins_at(put(b, pos.w as int, pos.h as int, color(sign)), pos.w as int, pos.h as int, color(sign)),
            res matches Some(d) ==> exists|d1: Seq<(usize, i16)>, d2: Seq<(usize, i16)>, d3: Seq<(usize, i16)>|
                step_post(b, 0, pos, sign, old(lr).lines@, final(lr).lines@, Seq::empty(), d1, false)
                && step_post(b, 1, pos, sign, old(ud).lines@, final(ud).lines@, d1, d2, false)
                && step_post(b, 2, pos, sign, old(lu_rd).lines@, final(lu_rd).lines@, d2, d3, false)
                && step_post(b, 3, pos, sign, old(ru_ld).lines@, final(ru_ld).lines@, d3, d@, false),
            ({
                let t0 = row_step(0, pos, sign, old(lr).lines@);
                let t1 = row_step(1, pos, sign, old(ud).lines@);
                let t2 = row_step(2, pos, sign, old(lu_rd).lines@);
                let t3 = row_step(3, pos, sign, old(ru_ld).lines@);
                &&& res is None <==> (t0.0 || t1.0 || t2.0 || t3.0)
                &&& final(lr).lines@ == t0.1
                &&& final(ud).lines@ == if t0.0 { old(ud).lines@ } else { t1.1 }
                &&& final(lu_rd).lines@ == if t0.0 || t1.0 { old(lu_rd).lines@ } else { t2.1 }
                &&& final(ru_ld).lines@ == if t0.0 || t1.0 || t2.0 { old(ru_ld).lines@ } else { t3.1 }
                &&& res matches Some(d) ==> d@ == t0.2 + t1.2 + t2.2 + t3.2
            }),
    {
        // The value of `pos` itself is taken off by the caller.
        let mut changes = Vec::new();
        let ghost d0 = changes@;
        let ghost c = color(sign);
        let ghost b2 = put(b, pos.w as int, pos.h as int, c);
        if Self::update_row(0, pos, sign, lr, &mut changes, Ghost(b)) {
            proof { lemma_step_win(b, 0, pos, sign); }
            return None;
        }
        let ghost d1 = changes@;
        proof {
            assert(d0 + row_step(0, pos, sign, old(lr).lines@).2 =~= row_step(0, pos, sign, old(lr).lines@).2);
        }
        if Self::update_row(1, pos, sign, ud, &mut changes, Ghost(b)) {
            proof { lemma_step_win(b, 1, pos, sign); }
            return None;
        }
        let ghost d2 = changes@;
        if Self::update_row(2, pos, sign, lu_rd, &mut changes, Ghost(b)) {
            proof { lemma_step_win(b, 2, pos, sign); }
            return None;
        }
        let ghost d3 = changes@;
        if Self::update_row(3, pos, sign, ru_ld, &mut changes, Ghost(b)) {
            proof { lemma_step_win(b, 3, pos, sign); }
            return None;
        }
        proof {
            lemma_step_no_win(b, pos, sign, old(lr).lines@, lr.lines@, old(ud).lines@, ud.lines@, old(lu_rd).lines@, lu_rd.lines@, old(ru_ld).lines@, ru_ld.lines@, d0, d1, d2, d3, changes@);
        }
        Some(changes)
    }
}

impl Clone for LineRow {
    fn clone(&self) -> (res: Self)
        ensures
            res.lines@ == self.lines@,
    {
        let mut clone = Vec::new();
        let mut i: usize = 0;
        while i < self.lines.len()
            invariant
                i <= self.lines.len(),
                clone@ == self.lines@.subrange(0, i as int),
            decreases self.lines.len() - i,
        {
            clone.push(self.lines[i]);
            i += 1;
            proof {
                assert(clone@ =~= self.lines@.subrange(0, i as int));
            }
        }
        proof {
            assert(self.lines@.subrange(0, self.lines.len() as int) =~= self.lines@);
        }
        LineRow { lines: clone }
    }
}

} // verus!
