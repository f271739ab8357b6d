//! The search: candidate moves in the order of their heuristic values, and negamax with
//! alpha-beta pruning over the exact game value.
use vstd::prelude::*;

use crate::geometry::{at, board_ok, color, play, wins_by};
use crate::lines::{
    lemma_diffs_fit, lemma_redo_undoes_update, lemma_same_as_trans, lemma_update_frame_same, lemma_wf_board, lemma_wf_same,
    redo_frame, update_frame, Changes, Lines, UpdateResult,
};
use crate::{BoardPos, CELLS, HEIGHT, MAX_DEPTH, MAX_SCORE, MIN_SCORE};

verus! {

/// The position of cell index `k`.
pub open spec fn cell_pos(k: int) -> BoardPos {
    BoardPos { w: (k / 4) as i8, h: (k % 4) as i8 }
}

/// The number of stones among the first `n` cells of `b`.
pub open spec fn stones_upto(b: Seq<u8>, n: int) -> int
    decreases n,
{
    if n <= 0 {
        0
    } else {
        stones_upto(b, n - 1) + if b[n - 1] != 0 {
            1int
        } else {
            0
        }
    }
}

/// The number of stones on board `b`.
pub open spec fn stones(b: Seq<u8>) -> int {
    stones_upto(b, 16)
}

/// The board after the player `sign` put a stone on cell `k`.
pub open spec fn child(b: Seq<u8>, sign: bool, k: int) -> Seq<u8> {
    b.update(k, color(sign) as u8)
}

/// The player `sign` can make `WIN_LEN` in a row with one stone.
pub open spec fn can_win(b: Seq<u8>, sign: bool) -> bool {
    exists|p: BoardPos| p.on_board() && b[p.index()] == 0 && #[trigger] wins_by(b, p, sign)
}

/// The value of board `b` for the player `sign` to move, with `count` stones played and the
/// search at depth `depth`, as the search defines it: 0 when one cell is left or at depth
/// `MAX_DEPTH`; `MAX_SCORE - count` when the player can win at once; otherwise the best over
/// the empty cells of the negated value of the board after the move (`MIN_SCORE` if no cell
/// is empty, or when `count` says the board is full).
pub open spec fn game_value(b: Seq<u8>, sign: bool, count: int, depth: int) -> int
    decreases 16 - count, 17int,
{
    if count == CELLS - 1 {
        0
    } else if depth == MAX_DEPTH {
        0
    } else if can_win(b, sign) {
        MAX_SCORE - count
    } else {
        best_from(b, sign, count, depth, 0)
    }
}

/// The best score of a move on the cells `k ..` (`MIN_SCORE` if none of them is empty).
pub open spec fn best_from(b: Seq<u8>, sign: bool, count: int, depth: int, k: int) -> int
    decreases 16 - count, 16 - k,
{
    if k < 0 || k >= 16 || count >= 16 {
        MIN_SCORE as int
    } else {
        let rest = best_from(b, sign, count, depth, k + 1);
        if b[k] == 0 {
            let s = -game_value(child(b, sign, k), !sign, count + 1, depth + 1);
            if s > rest {
                s
            } else {
                rest
            }
        } else {
            rest
        }
    }
}

/// The score of the move on cell `k`: the negated value of the board after it.
pub open spec fn move_score(b: Seq<u8>, sign: bool, count: int, depth: int, k: int) -> int {
    -game_value(child(b, sign, k), !sign, count + 1, depth + 1)
}

/// A move that the root search passes over before it settles on one scoring `s`: one that
/// does not win at once when a win is possible, otherwise one that scores less than `s`.
pub open spec fn passed_over(b: Seq<u8>, sign: bool, count: int, p: BoardPos, s: int) -> bool {
    if can_win(b, sign) {
        !wins_by(b, p, sign)
    } else {
        move_score(b, sign, count, 0, p.index()) < s
    }
}

/// `m` comes in `moves` after every empty cell that the root search passes over and before
/// any other choice: it is the first empty cell of `moves` that wins at once when a win is
/// possible, otherwise the first one that scores `s`.
pub open spec fn first_choice(moves: Seq<BoardPos>, b: Seq<u8>, sign: bool, count: int, m: BoardPos, s: int) -> bool {
    exists|i: int|
        0 <= i < moves.len() && moves[i] == m && forall|j: int|
            0 <= j < i && b[moves[j].index()] == 0 ==> passed_over(b, sign, count, #[trigger] moves[j], s)
}

/// The value of a position where the player `sign` is to move and no depth limit or
/// one-cell rule applies: a win at once scores `MAX_SCORE - count`, otherwise the best move
/// score.
pub open spec fn root_value(b: Seq<u8>, sign: bool, count: int) -> int {
    if can_win(b, sign) {
        MAX_SCORE - count
    } else {
        best_from(b, sign, count, 0, 0)
    }
}

/// A search result `r` for the window `alpha .. beta` agrees with the value `v`: exact inside
/// the window, an upper bound of `v` at or below `alpha`, a lower bound at or above `beta`.
pub open spec fn fail_soft(r: int, alpha: int, beta: int, v: int) -> bool {
    &&& r <= alpha ==> v <= r
    &&& alpha < r < beta ==> r == v
    &&& r >= beta ==> v >= r
}

/// Counting stones: at most `n` among `n` cells, and fewer when one of them is empty.
pub proof fn lemma_stones_upto(b: Seq<u8>, n: int, k: int)
    requires
        0 <= n <= b.len(),
    ensures
        0 <= stones_upto(b, n) <= n,
        0 <= k < n && b[k] == 0 ==> stones_upto(b, n) <= n - 1,
    decreases n,
{
    if n > 0 {
        lemma_stones_upto(b, n - 1, k);
    }
}

/// Two empty cells among the first `n` leave at most `n - 2` stones there.
pub proof fn lemma_stones_two_empty(b: Seq<u8>, n: int, k1: int, k2: int)
    requires
        0 <= n <= b.len(),
        0 <= k1 < n,
        0 <= k2 < n,
        k1 != k2,
        b[k1] == 0,
        b[k2] == 0,
    ensures
        stones_upto(b, n) <= n - 2,
    decreases n,
{
    if k1 == n - 1 {
        lemma_stones_upto(b, n - 1, k2);
    } else if k2 == n - 1 {
        lemma_stones_upto(b, n - 1, k1);
    } else {
        lemma_stones_two_empty(b, n - 1, k1, k2);
    }
}

/// A board with fewer than 16 stones has an empty cell; a board with 16 has none.
pub proof fn lemma_stones_empty_cell(b: Seq<u8>)
    requires
        b.len() == 16,
    ensures
        stones(b) < 16 ==> exists|k: int| 0 <= k < 16 && b[k] == 0,
        stones(b) == 16 ==> forall|k: int| 0 <= k < 16 ==> b[k] != 0,
{
    if stones(b) < 16 {
        lemma_stones_all(b, 16);
    }
    assert forall|k: int| 0 <= k < 16 && stones(b) == 16 implies b[k] != 0 by {
        lemma_stones_upto(b, 16, k);
    }
}

/// If all of the first `n` cells hold stones, they count `n`.
proof fn lemma_stones_all(b: Seq<u8>, n: int)
    requires
        0 <= n <= b.len(),
    ensures
        (forall|k: int| 0 <= k < n ==> b[k] != 0) ==> stones_upto(b, n) == n,
    decreases n,
{
    if n > 0 {
        lemma_stones_all(b, n - 1);
    }
}

/// A stone put on an empty cell adds one to the count.
pub proof fn lemma_stones_put(b: Seq<u8>, k: int, c: u8, n: int)
    requires
        0 <= k < b.len(),
        0 <= n <= b.len(),
        b[k] == 0,
        c != 0,
    ensures
        stones_upto(b.update(k, c), n) == stones_upto(b, n) + if k < n {
            1int
        } else {
            0
        },
    decreases n,
{
    if n > 0 {
        lemma_stones_put(b, k, c, n - 1);
    }
}

/// The best move score is at least the score of every empty cell from `k` on.
pub proof fn lemma_best_from_ge(b: Seq<u8>, sign: bool, count: int, depth: int, k: int, m: int)
    requires
        0 <= k <= m < 16,
        b.len() == 16,
        b[m] == 0,
        count < 16,
    ensures
        best_from(b, sign, count, depth, k) >= move_score(b, sign, count, depth, m),
        best_from(b, sign, count, depth, k) >= MIN_SCORE,
    decreases 16 - k,
{
    if k < m {
        lemma_best_from_ge(b, sign, count, depth, k + 1, m);
    } else {
        lemma_best_from_min(b, sign, count, depth, k + 1);
    }
}

/// The best move score is at least `MIN_SCORE`.
pub proof fn lemma_best_from_min(b: Seq<u8>, sign: bool, count: int, depth: int, k: int)
    ensures
        best_from(b, sign, count, depth, k) >= MIN_SCORE,
    decreases 16 - k,
{
    if 0 <= k < 16 && count < 16 {
        lemma_best_from_min(b, sign, count, depth, k + 1);
    }
}

/// A bound of the scores of all empty cells from `k` on, at least `MIN_SCORE`, bounds the
/// best move score.
pub proof fn lemma_best_from_le(b: Seq<u8>, sign: bool, count: int, depth: int, k: int, x: int)
    requires
        0 <= k <= 16,
        b.len() == 16,
        x >= MIN_SCORE,
        forall|m: int| k <= m < 16 && b[m] == 0 ==> #[trigger] move_score(b, sign, count, depth, m) <= x,
    ensures
        best_from(b, sign, count, depth, k) <= x,
    decreases 16 - k,
{
    if k < 16 && count < 16 {
        lemma_best_from_le(b, sign, count, depth, k + 1, x);
        if b[k] == 0 {
            assert(move_score(b, sign, count, depth, k) <= x);
        }
    }
}

/// The bounds of the game value: at least `MIN_SCORE` and at most `MAX_SCORE - count`, and,
/// with at most 15 stones, at least `count - 16`.
pub proof fn lemma_value_bounds(b: Seq<u8>, sign: bool, count: int, depth: int)
    requires
        board_ok(b),
        stones(b) == count,
    ensures
        MIN_SCORE <= game_value(b, sign, count, depth) <= MAX_SCORE - count,
        count <= 15 ==> game_value(b, sign, count, depth) >= count - 16,
    decreases 16 - count,
{
    lemma_stones_upto(b, 16, 0);
    if count == 15 || depth == MAX_DEPTH || can_win(b, sign) {
    } else {
        lemma_best_from_min(b, sign, count, depth, 0);
        lemma_stones_empty_cell(b);
        assert forall|m: int| 0 <= m < 16 && b[m] == 0 implies #[trigger] move_score(b, sign, count, depth, m) <= 15 - count
            && move_score(b, sign, count, depth, m) >= count - 16 by {
            let c = child(b, sign, m);
            lemma_stones_put(b, m, color(sign) as u8, 16);
            assert(board_ok(c));
            lemma_value_bounds(c, !sign, count + 1, depth + 1);
        }
        if count == 16 {
            lemma_best_from_le(b, sign, count, depth, 0, MIN_SCORE as int);
        } else {
            lemma_best_from_le(b, sign, count, depth, 0, 15 - count);
            let m = choose|m: int| 0 <= m < 16 && b[m] == 0;
            lemma_best_from_ge(b, sign, count, depth, 0, m);
        }
    }
}

/// A search over the full window `MIN_SCORE .. MAX_SCORE` gives the exact game value.
pub proof fn lemma_full_window_exact(b: Seq<u8>, sign: bool, count: int, depth: int, r: int)
    requires
        board_ok(b),
        stones(b) == count,
        MIN_SCORE <= r <= MAX_SCORE,
        fail_soft(r, MIN_SCORE as int, MAX_SCORE as int, game_value(b, sign, count, depth)),
    ensures
        r == game_value(b, sign, count, depth),
{
    lemma_value_bounds(b, sign, count, depth);
    lemma_stones_upto(b, 16, 0);
}

/// The value that `calculate` finds for a position is the game value that negamax searches
/// for at depth 0, except when a single cell is left (which the search scores as even).
pub proof fn lemma_root_is_game_value(b: Seq<u8>, sign: bool, count: int)
    requires
        count != CELLS - 1,
    ensures
        root_value(b, sign, count) == game_value(b, sign, count, 0),
{
}

/// The index of the position of cell `k` is `k`.
pub proof fn lemma_cell_pos(k: int)
    requires
        0 <= k < 16,
    ensures
        cell_pos(k).on_board(),
        cell_pos(k).index() == k,
{
}

/// Two positions on the board with the same index are the same.
pub proof fn lemma_index_unique(p: BoardPos, q: BoardPos)
    requires
        p.on_board(),
        q.on_board(),
        p.index() == q.index(),
    ensures
        p == q,
{
}

/// All 16 positions of the board, in the order of their indices.
pub fn get_moves() -> (moves: [BoardPos; 16])
    ensures
        forall|i: int| 0 <= i < 16 ==> #[trigger] moves@[i] == cell_pos(i),
{
    let mut x = [BoardPos::zero();CELLS];
    let mut i: usize = 0;
    while i != CELLS
        invariant
            i <= 16,
            forall|k: int| 0 <= k < i ==> #[trigger] x@[k] == cell_pos(k),
        decreases 16 - i,
    {
        x[i] = BoardPos { w: (i / HEIGHT) as i8, h: (i % HEIGHT) as i8 };
        i += 1;
    }
    x
}

/// Cell `k` appears in `moves`.
pub open spec fn holds_cell(moves: Seq<BoardPos>, k: int) -> bool {
    exists|i: int| 0 <= i < moves.len() && #[trigger] moves[i].index() == k
}

/// `moves` lists every position of the board exactly once.
pub open spec fn is_perm(moves: Seq<BoardPos>) -> bool {
    &&& moves.len() == 16
    &&& forall|i: int| 0 <= i < 16 ==> (#[trigger] moves[i]).on_board()
    &&& forall|k: int| 0 <= k < 16 ==> #[trigger] holds_cell(moves, k)
    &&& forall|i: int, j: int| 0 <= i < 16 && 0 <= j < 16 && i != j ==> moves[i] != moves[j]
}

/// The heuristic value of position `p`.
pub open spec fn val(values: Seq<i16>, p: BoardPos) -> int {
    values[p.index()] as int
}

/// The entries `lo .. hi` of `moves` are in order of decreasing value.
pub open spec fn sorted_range(moves: Seq<BoardPos>, values: Seq<i16>, lo: int, hi: int) -> bool {
    forall|x: int, y: int| lo <= x <= y < hi ==> val(values, #[trigger] moves[x]) >= val(values, #[trigger] moves[y])
}

/// The first `n` entries of `moves` are the positions with a non-zero value, in order of
/// decreasing value; the others have value 0.
pub open spec fn ordered_by_value(moves: Seq<BoardPos>, values: Seq<i16>, n: int) -> bool {
    &&& 0 <= n <= 16
    &&& forall|i: int| 0 <= i < n ==> val(values, #[trigger] moves[i]) != 0
    &&& forall|i: int| n <= i < 16 ==> val(values, #[trigger] moves[i]) == 0
    &&& sorted_range(moves, values, 0, n)
}

/// Exchanging two entries keeps a list of all positions one.
pub proof fn lemma_swap_perm(moves: Seq<BoardPos>, a: int, b: int)
    requires
        is_perm(moves),
        0 <= a < 16,
        0 <= b < 16,
    ensures
        is_perm(moves.update(a, moves[b]).update(b, moves[a])),
{
    let m2 = moves.update(a, moves[b]).update(b, moves[a]);
    assert forall|k: int| 0 <= k < 16 implies #[trigger] holds_cell(m2, k) by {
        assert(holds_cell(moves, k));
        let i = choose|i: int| 0 <= i < moves.len() && #[trigger] moves[i].index() == k;
        if i == a {
            assert(m2[b].index() == k);
        } else if i == b {
            assert(m2[a].index() == k);
        } else {
            assert(m2[i].index() == k);
        }
    }
    assert forall|i: int, j: int| 0 <= i < 16 && 0 <= j < 16 && i != j implies m2[i] != m2[j] by {
        let oi = if i == b { a } else if i == a { b } else { i };
        let oj = if j == b { a } else if j == a { b } else { j };
        assert(m2[i] == moves[oi]);
        assert(m2[j] == moves[oj]);
    }
}

/// Exchanges entries `a` and `b` of `moves`.
fn swap_moves(moves: &mut [BoardPos; 16], a: usize, b: usize)
    requires
        a < 16,
        b < 16,
    ensures
        final(moves)@ == old(moves)@.update(a as int, old(moves)@[b as int]).update(b as int, old(moves)@[a as int]),
{
    let t = moves[a];
    moves[a] = moves[b];
    moves[b] = t;
}

/// The positions in the order of the cell indices.
pub open spec fn all_cells() -> Seq<BoardPos> {
    Seq::new(16, |k: int| cell_pos(k))
}

/// The first pass of `sorted_moves` from entry `i` on, with `nums` entries with a non-zero
/// value collected in front: each entry with a non-zero value is exchanged with the entry
/// just after those collected so far.
pub open spec fn front_pass(values: Seq<i16>, moves: Seq<BoardPos>, nums: int, i: int) -> Seq<BoardPos>
    decreases 16 - i,
{
    if i < 0 || i >= 16 {
        moves
    } else if val(values, moves[i]) != 0 {
        front_pass(values, moves.update(nums, moves[i]).update(i, moves[nums]), nums + 1, i + 1)
    } else {
        front_pass(values, moves, nums, i + 1)
    }
}

/// The positions after the first pass of `sorted_moves` over all of them.
pub open spec fn pass_order(values: Seq<i16>) -> Seq<BoardPos> {
    front_pass(values, all_cells(), 0, 0)
}

/// Position `a` comes before position `b` in the order of the search: higher value first,
/// and of equal values the lower cell index first.
pub open spec fn before(values: Seq<i16>, a: BoardPos, b: BoardPos) -> bool {
    val(values, a) > val(values, b) || (val(values, a) == val(values, b) && a.index() < b.index())
}

/// The entries `lo .. hi` of `moves` are in the order `before`.
pub open spec fn lex_sorted(moves: Seq<BoardPos>, values: Seq<i16>, lo: int, hi: int) -> bool {
    forall|x: int, y: int| lo <= x < y < hi ==> before(values, #[trigger] moves[x], #[trigger] moves[y])
}

/// `moves` is the order in which the search tries the cells: all positions, first the `n` with
/// a non-zero value, from the highest value down and of equal values by increasing index, then
/// those with value 0, in the order the first pass leaves them.
pub open spec fn search_order(moves: Seq<BoardPos>, values: Seq<i16>, n: int) -> bool {
    &&& is_perm(moves)
    &&& ordered_by_value(moves, values, n)
    &&& lex_sorted(moves, values, 0, n)
    &&& forall|t: int| n <= t < 16 ==> #[trigger] moves[t] == pass_order(values)[t]
}

/// All positions of the board: first those with a non-zero value in `values`, from the
/// highest value down (equal values by increasing cell index), then those with value 0.
pub fn sorted_moves(values: &[i16; 16]) -> (moves: [BoardPos; 16])
    ensures
        is_perm(moves@),
        exists|n: int| ordered_by_value(moves@, values@, n),
        exists|n: int| search_order(moves@, values@, n),
{
    let mut moves = get_moves();
    let ghost pass = pass_order(values@);
    proof {
        assert forall|k: int| 0 <= k < 16 implies #[trigger] holds_cell(moves@, k) by {
            lemma_cell_pos(k);
            assert(moves@[k].index() == k);
        }
        assert forall|i: int| 0 <= i < 16 implies (#[trigger] moves@[i]).on_board() by {
            lemma_cell_pos(i);
        }
        assert forall|i: int, j: int| 0 <= i < 16 && 0 <= j < 16 && i != j implies moves@[i] != moves@[j] by {
            lemma_cell_pos(i);
            lemma_cell_pos(j);
        }
        assert(moves@ =~= all_cells());
    }
    let mut nums: usize = 0;
    let mut i: usize = 0;
    while i < CELLS
        invariant
            nums <= i <= 16,
            is_perm(moves@),
            forall|t: int| 0 <= t < nums ==> val(values@, #[trigger] moves@[t]) != 0,
            forall|t: int| nums <= t < i ==> val(values@, #[trigger] moves@[t]) == 0,
            front_pass(values@, moves@, nums as int, i as int) == pass,
            pass == pass_order(values@),
            forall|t: int| i <= t < 16 ==> #[trigger] moves@[t] == cell_pos(t),
            forall|t: int| 0 <= t < nums ==> (#[trigger] moves@[t]).index() < i,
            forall|t: int, u: int| 0 <= t < u < nums ==> (#[trigger] moves@[t]).index() < (#[trigger] moves@[u]).index(),
        decreases 16 - i,
    {
        proof {
            lemma_cell_pos(i as int);
        }
        if values[moves[i].get_usize()] != 0 {
            let ghost before_swap = moves@;
            swap_moves(&mut moves, nums, i);
            proof {
                lemma_swap_perm(before_swap, nums as int, i as int);
                assert(moves@[nums as int].index() == i);
            }
            nums += 1;
        }
        i += 1;
    }
    proof {
        assert(moves@ == pass);
        assert forall|t: int, u: int| 0 <= t < u < nums implies (#[trigger] pass[t]).index() < (#[trigger] pass[u]).index() by {
            assert(moves@[t] == pass[t] && moves@[u] == pass[u]);
        }
    }
    let mut a: usize = 1;
    while a < nums
        invariant
            1 <= a,
            nums <= 16,
            a <= nums || nums == 0,
            is_perm(moves@),
            forall|t: int| 0 <= t < nums ==> val(values@, #[trigger] moves@[t]) != 0,
            forall|t: int| nums <= t < 16 ==> val(values@, #[trigger] moves@[t]) == 0,
            lex_sorted(moves@, values@, 0, a as int),
            pass == pass_order(values@),
            nums == 0 ==> moves@ == pass,
            forall|t: int| a <= t < 16 ==> #[trigger] moves@[t] == pass[t],
            forall|t: int, u: int| 0 <= t < u < nums ==> (#[trigger] pass[t]).index() < (#[trigger] pass[u]).index(),
            forall|x: int, y: int| 0 <= x < a <= y < nums ==> (#[trigger] moves@[x]).index() < (#[trigger] moves@[y]).index(),
        decreases 16 - a,
    {
        let mut j: usize = a;
        proof {
            assert(moves@[a as int] == pass[a as int]);
            assert forall|x: int, y: int| 0 <= x <= a < y < nums implies (#[trigger] moves@[x]).index() < (
            #[trigger] moves@[y]).index() by {
                if x == a {
                    assert(moves@[y] == pass[y]);
                }
            }
        }
        while j > 0 && values[moves[j - 1].get_usize()] < values[moves[j].get_usize()]
            invariant
                j <= a < nums,
                nums <= 16,
                is_perm(moves@),
                forall|t: int| 0 <= t < nums ==> val(values@, #[trigger] moves@[t]) != 0,
                forall|t: int| nums <= t < 16 ==> val(values@, #[trigger] moves@[t]) == 0,
                lex_sorted(moves@, values@, 0, j as int),
                lex_sorted(moves@, values@, j + 1, a + 1),
                forall|x: int, y: int|
                    0 <= x < j < y <= a ==> before(values@, #[trigger] moves@[x], #[trigger] moves@[y]),
                forall|y: int| j < y <= a ==> val(values@, moves@[j as int]) > val(values@, #[trigger] moves@[y]),
                forall|x: int| 0 <= x <= a && x != j ==> (#[trigger] moves@[x]).index() < moves@[j as int].index(),
                forall|x: int, y: int| 0 <= x <= a < y < nums ==> (#[trigger] moves@[x]).index() < (#[trigger] moves@[y]).index(),
                pass == pass_order(values@),
                forall|t: int| a < t < 16 ==> #[trigger] moves@[t] == pass[t],
            decreases j,
        {
            let ghost b4 = moves@;
            swap_moves(&mut moves, j - 1, j);
            proof {
                lemma_swap_perm(b4, j - 1, j as int);
                let m2 = moves@;
                assert(m2[j - 1] == b4[j as int]);
                assert(m2[j as int] == b4[j - 1]);
                assert forall|x: int, y: int| j <= x < y < a + 1 implies before(values@, #[trigger] m2[x], #[trigger] m2[y]) by {
                    if x == j {
                        assert(before(values@, b4[j - 1], b4[y]));
                    } else {
                        assert(before(values@, b4[x], b4[y]));
                    }
                }
                assert forall|x: int, y: int| 0 <= x < j - 1 < y <= a implies before(values@, #[trigger] m2[x], #[trigger] m2[y]) by {
                    if y == j {
                        assert(before(values@, b4[x], b4[j - 1]));
                    } else {
                        assert(before(values@, b4[x], b4[y]));
                    }
                }
                assert forall|y: int| j - 1 < y <= a implies val(values@, m2[j - 1]) > val(values@, #[trigger] m2[y]) by {
                    if y > j {
                        assert(val(values@, b4[j as int]) > val(values@, b4[y]));
                    }
                }
                assert forall|x: int| 0 <= x <= a && x != j - 1 implies (#[trigger] m2[x]).index() < m2[j - 1].index() by {
                    if x == j {
                        assert(b4[j - 1].index() < b4[j as int].index());
                    } else {
                        assert(b4[x].index() < b4[j as int].index());
                    }
                }
                assert forall|x: int, y: int| 0 <= x <= a < y < nums implies (#[trigger] m2[x]).index() < (#[trigger] m2[y]).index() by {
                    let ox = if x == j { j - 1 } else if x == j - 1 { j as int } else { x };
                    assert(m2[x] == b4[ox]);
                    assert(b4[ox].index() < b4[y].index());
                }
            }
            j -= 1;
        }
        proof {
            let m2 = moves@;
            if j > 0 {
                assert(m2[j - 1].index() < m2[j as int].index());
                assert(before(values@, m2[j - 1], m2[j as int]));
            }
            assert forall|x: int, y: int| 0 <= x < y < a + 1 implies before(values@, #[trigger] m2[x], #[trigger] m2[y]) by {
                if y < j {
                } else if x > j {
                } else if x < j && y > j {
                } else if x < j && y == j {
                    if x < j - 1 {
                        assert(before(values@, m2[x], m2[j - 1]));
                    }
                } else if x == j && y > j {
                    assert(val(values@, m2[j as int]) > val(values@, m2[y]));
                }
            }
            assert forall|x: int, y: int| 0 <= x < a + 1 <= y < nums implies (#[trigger] m2[x]).index() < (#[trigger] m2[y]).index() by {}
        }
        a += 1;
    }
    proof {
        let n = nums as int;
        assert(lex_sorted(moves@, values@, 0, n));
        assert(sorted_range(moves@, values@, 0, n)) by {
            assert forall|x: int, y: int| 0 <= x <= y < n implies val(values@, #[trigger] moves@[x]) >= val(values@, #[trigger] moves@[y]) by {
                if x < y {
                    assert(before(values@, moves@[x], moves@[y]));
                }
            }
        }
        assert(ordered_by_value(moves@, values@, n));
        assert(search_order(moves@, values@, n));
    }
    moves
}

/// The lines after a move and its undoing hold the same rows and values as before the move,
/// and so describe the board again.
pub proof fn lemma_undo_move(
    l0: Lines,
    l_pre: Lines,
    l1: Lines,
    l2: Lines,
    l3: Lines,
    ch: Changes,
    pos: BoardPos,
    b: Seq<u8>,
)
    requires
        l0.wf(b),
        l_pre.same_as(l0),
        update_frame(l_pre, l1, ch, pos),
        l2.same_as(l1),
        redo_frame(l2, ch, l3),
    ensures
        l3.same_as(l0),
        l3.wf(b),
{
    lemma_update_frame_same(l_pre, l1, l2, ch, pos);
    lemma_redo_undoes_update(l_pre, l2, l3, ch, pos);
    lemma_same_as_trans(l3, l_pre, l0);
    lemma_same_as_trans(l0, l3, l3);
    lemma_wf_same(l0, l3, b);
}

/// Negamax search with alpha-beta pruning: the value of `board` for the player `sign`, with
/// `count` stones on the board, at depth `depth`, within the window `alpha .. beta`.  The
/// board and the lines are as they were when it returns.
pub fn negmax(
    board: &mut [u8; 16],
    sign: bool,
    count: isize,
    depth: usize,
    alpha: isize,
    beta: isize,
    lines: &mut Lines,
) -> (r: isize)
    requires
        old(lines).wf(old(board)@),
        old(lines).board@ == old(board)@,
        stones(old(board)@) == count,
        count <= 14 ==> depth + (15 - count) <= usize::MAX,
        isize::MIN < alpha < beta,
    ensures
        final(board)@ == old(board)@,
        final(lines).same_as(*old(lines)),
        MIN_SCORE <= r <= MAX_SCORE,
        r <= MAX_SCORE - count,
        count <= 15 ==> r >= count - 16,
        fail_soft(r as int, alpha as int, beta as int, game_value(old(board)@, sign, count as int, depth as int)),
    decreases 16 - count,
{
    let ghost b0 = board@;
    let ghost l0 = *lines;
    let ghost a0 = alpha as int;
    let ghost beta0 = beta as int;
    proof {
        lemma_wf_board(l0, b0);
        lemma_stones_upto(b0, 16, 0);
        lemma_value_bounds(b0, sign, count as int, depth as int);
        lemma_same_as_trans(l0, l0, l0);
    }
    if count == (CELLS - 1) as isize {
        return 0;
    }
    let current_max_score = MAX_SCORE - count;
    let mut beta = beta;
    if current_max_score <= beta {
        beta = current_max_score;
        if alpha >= beta {
            return beta;
        }
    }
    if depth == MAX_DEPTH {
        return 0;
    }
    let moves = sorted_moves(lines.get_values());
    let mut alpha = alpha;
    let mut best_score = MIN_SCORE;
    let mut cut = false;
    let mut won = false;
    let mut j: usize = 0;
    while j < CELLS && !cut && !won
        invariant
            won ==> can_win(b0, sign),
            j <= 16,
            board@ == b0,
            lines.wf(b0),
            lines.same_as(l0),
            l0.wf(b0),
            l0.board@ == b0,
            board_ok(b0),
            is_perm(moves@),
            stones(b0) == count,
            0 <= count <= 16,
            count != 15,
            depth != MAX_DEPTH,
            count <= 14 ==> depth + (15 - count) <= usize::MAX,
            current_max_score == MAX_SCORE - count,
            beta == if MAX_SCORE - count <= beta0 { MAX_SCORE - count } else { beta0 },
            a0 < beta,
            isize::MIN < a0 < beta0,
            MIN_SCORE <= best_score <= MAX_SCORE,
            best_score <= MAX_SCORE - count,
            !won ==> forall|i: int| 0 <= i < j && b0[(#[trigger] moves@[i]).index()] == 0 ==> best_score >= count - 16,
            alpha == if best_score > a0 && best_score > MIN_SCORE { best_score as int } else { a0 },
            !cut ==> alpha < beta,
            cut ==> best_score >= beta && exists|i: int|
                0 <= i < j && b0[moves@[i].index()] == 0 && move_score(b0, sign, count as int, depth as int, (#[trigger] moves@[i]).index())
                    >= best_score,
            !cut && !won ==> forall|i: int|
                0 <= i < j && b0[moves@[i].index()] == 0 ==> move_score(b0, sign, count as int, depth as int, (#[trigger] moves@[i]).index())
                    <= best_score,
            !cut && best_score > a0 && best_score > MIN_SCORE ==> exists|i: int|
                0 <= i < j && b0[moves@[i].index()] == 0 && move_score(b0, sign, count as int, depth as int, (#[trigger] moves@[i]).index())
                    == best_score,
            !won ==> forall|i: int| 0 <= i < j && b0[moves@[i].index()] == 0 ==> !wins_by(b0, #[trigger] moves@[i], sign),
        decreases 16 - j,
    {
        let m = moves[j];
        let k = m.get_usize();
        if board[k] == 0 {
            proof {
                lemma_stones_upto(b0, 16, k as int);
            }
            let ghost l_pre = *lines;
            match lines.update_move(m, sign) {
                UpdateResult::Continue(changes) => {
                    let ghost l1 = *lines;
                    let ghost ch = changes;
                    board[k] = sign as u8 + 1;
                    proof {
                        assert(board@ == play(b0, m, sign));
                        assert(board@ == child(b0, sign, k as int));
                        lemma_stones_put(b0, k as int, color(sign) as u8, 16);
                        lemma_value_bounds(board@, !sign, count + 1, depth + 1);
                    }
                    let r_child = negmax(board, !sign, count + 1, depth + 1, -beta, -alpha, lines);
                    let score = -r_child;
                    let ghost l2 = *lines;
                    proof {
                        lemma_diffs_fit(lines.values@, changes.value_changes@);
                    }
                    lines.redo_changes(changes);
                    board[k] = 0;
                    proof {
                        assert(board@ =~= b0);
                        lemma_undo_move(l0, l_pre, l1, l2, *lines, ch, m, b0);
                    }
                    if score > best_score {
                        best_score = score;
                    }
                    if best_score > alpha {
                        alpha = best_score;
                    }
                    if alpha >= beta {
                        cut = true;
                    }
                },
                UpdateResult::Win(changes) => {
                    let ghost l1 = *lines;
                    let ghost ch = changes;
                    proof {
                        lemma_diffs_fit(lines.values@, changes.value_changes@);
                    }
                    lines.redo_changes(changes);
                    proof {
                        lemma_same_as_trans(l1, l1, l1);
                        lemma_undo_move(l0, l_pre, l1, l1, *lines, ch, m, b0);
                        assert(can_win(b0, sign));
                    }
                    won = true;
                },
            }
        }
        j += 1;
    }
    if won {
        return current_max_score;
    }
    proof {
        lemma_value_bounds(b0, sign, count as int, depth as int);
        if count <= 15 {
            lemma_stones_empty_cell(b0);
            let e = choose|e: int| 0 <= e < 16 && b0[e] == 0;
            assert(holds_cell(moves@, e));
            let i = choose|i: int| 0 <= i < moves@.len() && #[trigger] moves@[i].index() == e;
            if !cut {
                assert(best_score >= count - 16);
            }
        }
        if cut {
            let i = choose|i: int|
                0 <= i < j && b0[moves@[i].index()] == 0 && move_score(b0, sign, count as int, depth as int, (#[trigger] moves@[i]).index())
                    >= best_score;
            let mk = moves@[i].index();
            lemma_stones_upto(b0, 16, mk);
            lemma_best_from_ge(b0, sign, count as int, depth as int, 0, mk);
            lemma_stones_upto(b0, 16, mk);
            lemma_stones_put(b0, mk, color(sign) as u8, 16);
            assert(board_ok(child(b0, sign, mk)));
            lemma_value_bounds(child(b0, sign, mk), !sign, count + 1, depth + 1);
        } else {
            assert forall|p: BoardPos| p.on_board() && b0[p.index()] == 0 implies !#[trigger] wins_by(b0, p, sign) by {
                assert(holds_cell(moves@, p.index()));
                let i = choose|i: int| 0 <= i < moves@.len() && #[trigger] moves@[i].index() == p.index();
                lemma_index_unique(moves@[i], p);
            }
            assert forall|mk: int| 0 <= mk < 16 && b0[mk] == 0 implies #[trigger] move_score(b0, sign, count as int, depth as int, mk)
                <= best_score by {
                assert(holds_cell(moves@, mk));
                let i = choose|i: int| 0 <= i < moves@.len() && #[trigger] moves@[i].index() == mk;
            }
            lemma_best_from_le(b0, sign, count as int, depth as int, 0, best_score as int);
            if best_score > a0 && best_score > MIN_SCORE {
                let i = choose|i: int|
                    0 <= i < j && b0[moves@[i].index()] == 0 && move_score(b0, sign, count as int, depth as int, (#[trigger] moves@[i]).index())
                        == best_score;
                lemma_stones_upto(b0, 16, moves@[i].index());
                lemma_best_from_ge(b0, sign, count as int, depth as int, 0, moves@[i].index());
            }
        }
    }
    best_score
}

} // verus!
