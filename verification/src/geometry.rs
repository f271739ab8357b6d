//! Mathematical model of the board.
//!
//! A board is a sequence of 16 cells, indexed `w * HEIGHT + h`; a cell holds 0 when it
//! is empty and `sign as u8 + 1` when a player has put a stone there.  Outside the
//! board every position reads as a wall (3), which blocks like an opponent's stone.
//!
//! Each of the four line directions ("families") splits the board into rows.  A
//! position `(w, h)` lies in row `row_of(f, w, h)` of family `f`, at coordinate
//! `along(f, w, h)` inside that row; stepping by `direction(2 * f)` adds one to that
//! coordinate and stepping by `direction(2 * f + 1)` subtracts one.
use vstd::prelude::*;

use crate::BoardPos;

verus! {

/// What a position outside the board reads as.
pub open spec fn wall() -> int {
    3
}

/// The content of position `(w, h)`: 0 empty, 1 or 2 a stone, 3 outside the board.
pub open spec fn at(b: Seq<u8>, w: int, h: int) -> int {
    if 0 <= w < 4 && 0 <= h < 4 {
        b[w * 4 + h] as int
    } else {
        wall()
    }
}

/// Whether a cell content is a player's stone.
pub open spec fn is_stone(x: int) -> bool {
    x == 1 || x == 2
}

/// The cell content that a player's stone leaves on the board.
pub open spec fn color(sign: bool) -> int {
    if sign {
        2
    } else {
        1
    }
}

/// The board with a stone of color `c` put at `(w, h)`.
pub open spec fn put(b: Seq<u8>, w: int, h: int, c: int) -> Seq<u8> {
    b.update(w * 4 + h, c as u8)
}

/// The board without stones.
pub open spec fn empty_board() -> Seq<u8> {
    Seq::new(16, |i: int| 0u8)
}

/// A well-formed board: 16 cells, each empty or holding a stone.
pub open spec fn board_ok(b: Seq<u8>) -> bool {
    &&& b.len() == 16
    &&& forall|i: int| 0 <= i < 16 ==> #[trigger] b[i] <= 2
}

/// The row of family `f` that holds position `(w, h)`.
pub open spec fn row_of(f: int, w: int, h: int) -> int {
    if f == 0 {
        h
    } else if f == 1 {
        w
    } else if f == 2 {
        w - h + 3
    } else {
        w + h
    }
}

/// The coordinate of position `(w, h)` inside its row of family `f`.
pub open spec fn along(f: int, w: int, h: int) -> int {
    if f == 1 {
        h
    } else {
        w
    }
}

/// The column of the position at coordinate `t` of row `r` of family `f`.
pub open spec fn cell_w(f: int, r: int, t: int) -> int {
    if f == 1 {
        r
    } else {
        t
    }
}

/// The row (board `h`) of the position at coordinate `t` of row `r` of family `f`.
pub open spec fn cell_h(f: int, r: int, t: int) -> int {
    if f == 0 {
        r
    } else if f == 1 {
        t
    } else if f == 2 {
        t - r + 3
    } else {
        r - t
    }
}

/// The content at coordinate `t` of row `r` of family `f`.
pub open spec fn at_rt(b: Seq<u8>, f: int, r: int, t: int) -> int {
    at(b, cell_w(f, r, t), cell_h(f, r, t))
}

/// The number of rows of family `f`.
pub open spec fn row_count(f: int) -> int {
    if f <= 1 {
        4
    } else {
        7
    }
}

/// The `w` step of `direction(i)`.
pub open spec fn dir_w(i: int) -> int {
    if i == 0 || i == 4 || i == 6 {
        1
    } else if i == 1 || i == 5 || i == 7 {
        -1
    } else {
        0
    }
}

/// The `h` step of `direction(i)`.
pub open spec fn dir_h(i: int) -> int {
    if i == 2 || i == 4 || i == 7 {
        1
    } else if i == 3 || i == 5 || i == 6 {
        -1
    } else {
        0
    }
}

/// Cells `a + 1 ..= a + n` of the row all hold `c` (for `n <= 3`).
pub open spec fn run_up(b: Seq<u8>, f: int, r: int, a: int, n: int, c: int) -> bool {
    &&& n >= 1 ==> at_rt(b, f, r, a + 1) == c
    &&& n >= 2 ==> at_rt(b, f, r, a + 2) == c
    &&& n >= 3 ==> at_rt(b, f, r, a + 3) == c
}

/// Cells `a - 1 ..= a - n` of the row all hold `c` (for `n <= 3`).
pub open spec fn run_down(b: Seq<u8>, f: int, r: int, a: int, n: int, c: int) -> bool {
    &&& n >= 1 ==> at_rt(b, f, r, a - 1) == c
    &&& n >= 2 ==> at_rt(b, f, r, a - 2) == c
    &&& n >= 3 ==> at_rt(b, f, r, a - 3) == c
}

/// A cell that stops a run of color `c`: a wall or the other player's stone.
pub open spec fn blocks(x: int, c: int) -> bool {
    x != 0 && x != c
}

/// Four cells `s ..= s + 3` of the row hold stones of color `c`.
pub open spec fn four_at(b: Seq<u8>, f: int, r: int, s: int, c: int) -> bool {
    &&& at_rt(b, f, r, s) == c
    &&& at_rt(b, f, r, s + 1) == c
    &&& at_rt(b, f, r, s + 2) == c
    &&& at_rt(b, f, r, s + 3) == c
}

/// Coordinate `t` of row `r` of family `f` is part of four in a row of color `c`.
pub open spec fn four_through(b: Seq<u8>, f: int, r: int, t: int, c: int) -> bool {
    ||| four_at(b, f, r, t - 3, c)
    ||| four_at(b, f, r, t - 2, c)
    ||| four_at(b, f, r, t - 1, c)
    ||| four_at(b, f, r, t, c)
}

/// The stone of color `c` at `(w, h)` is part of `WIN_LEN` stones in a row, in one of the
/// four directions.
pub open spec fn wins_at(b: Seq<u8>, w: int, h: int, c: int) -> bool {
    ||| four_through(b, 0, row_of(0, w, h), along(0, w, h), c)
    ||| four_through(b, 1, row_of(1, w, h), along(1, w, h), c)
    ||| four_through(b, 2, row_of(2, w, h), along(2, w, h), c)
    ||| four_through(b, 3, row_of(3, w, h), along(3, w, h), c)
}

/// The board after the player `sign` put a stone at `pos`.
pub open spec fn play(b: Seq<u8>, pos: BoardPos, sign: bool) -> Seq<u8> {
    put(b, pos.w as int, pos.h as int, color(sign))
}

/// The stone that the player `sign` puts at `pos` makes `WIN_LEN` in a row.
pub open spec fn wins_by(b: Seq<u8>, pos: BoardPos, sign: bool) -> bool {
    wins_at(play(b, pos, sign), pos.w as int, pos.h as int, color(sign))
}

/// No player has four stones in a row anywhere on the board.
pub open spec fn no_four(b: Seq<u8>) -> bool {
    forall|f: int, r: int, s: int, c: int|
        0 <= f < 4 && is_stone(c) ==> !#[trigger] four_at(b, f, r, s, c)
}

/// Putting a stone changes the one position it is put on.
pub proof fn lemma_at_put(b: Seq<u8>, w: int, h: int, c: int, w2: int, h2: int)
    requires
        b.len() == 16,
        0 <= w < 4,
        0 <= h < 4,
        0 <= c < 256,
    ensures
        at(put(b, w, h, c), w2, h2) == if w2 == w && h2 == h {
            c
        } else {
            at(b, w2, h2)
        },
{
}

/// Putting a stone, seen through the rows of a family.
pub proof fn lemma_at_rt_put(b: Seq<u8>, w: int, h: int, c: int, f: int, r: int, t: int)
    requires
        b.len() == 16,
        0 <= w < 4,
        0 <= h < 4,
        0 <= c < 256,
        0 <= f < 4,
    ensures
        at_rt(put(b, w, h, c), f, r, t) == if r == row_of(f, w, h) && t == along(f, w, h) {
            c
        } else {
            at_rt(b, f, r, t)
        },
{
    lemma_at_put(b, w, h, c, cell_w(f, r, t), cell_h(f, r, t));
}

/// The rows of all four families seen through `put`, for every coordinate.
pub proof fn lemma_at_rt_put_all(b: Seq<u8>, w: int, h: int, c: int)
    requires
        b.len() == 16,
        0 <= w < 4,
        0 <= h < 4,
        0 <= c < 256,
    ensures
        forall|f: int, r: int, t: int|
            0 <= f < 4 ==> #[trigger] at_rt(put(b, w, h, c), f, r, t) == if r == row_of(f, w, h)
                && t == along(f, w, h) {
                c
            } else {
                at_rt(b, f, r, t)
            },
{
    assert forall|f: int, r: int, t: int| 0 <= f < 4 implies #[trigger] at_rt(
        put(b, w, h, c),
        f,
        r,
        t,
    ) == if r == row_of(f, w, h) && t == along(f, w, h) {
        c
    } else {
        at_rt(b, f, r, t)
    } by {
        lemma_at_rt_put(b, w, h, c, f, r, t);
    }
}

/// A stone put where it makes no four in a row keeps the board free of fours.
pub proof fn lemma_no_four_put(b: Seq<u8>, w: int, h: int, c: int)
    requires
        b.len() == 16,
        0 <= w < 4,
        0 <= h < 4,
        is_stone(c),
        no_four(b),
        !wins_at(put(b, w, h, c), w, h, c),
    ensures
        no_four(put(b, w, h, c)),
{
    let b2 = put(b, w, h, c);
    lemma_at_rt_put_all(b, w, h, c);
    assert forall|f: int, r: int, s: int, c2: int| 0 <= f < 4 && is_stone(c2) implies !#[trigger] four_at(
        b2,
        f,
        r,
        s,
        c2,
    ) by {
        assert(!four_at(b, f, r, s, c2));
        if four_at(b2, f, r, s, c2) {
            let t = along(f, w, h);
            assert(r == row_of(f, w, h));
            assert(s <= t <= s + 3);
            assert(c2 == c);
            assert(four_through(b2, f, r, t, c));
            assert(false);
        }
    }
}

} // verus!
