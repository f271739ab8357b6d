pub mod geometry;
pub mod lines;
pub mod negmax;

use vstd::prelude::*;

use crate::geometry::{board_ok, color, dir_h, dir_w, empty_board, no_four, play, wins_by};
use crate::lines::{lemma_diffs_fit, lemma_wf_board, lemma_wf_same, Lines, UpdateResult};
use crate::negmax::{
    can_win, child, holds_cell, is_perm, lemma_best_from_ge, lemma_best_from_le,
    lemma_index_unique, lemma_stones_put, lemma_undo_move, lemma_stones_two_empty, lemma_stones_upto, lemma_value_bounds,
    lemma_stones_empty_cell, move_score, negmax, root_value, sorted_moves, stones, stones_upto, first_choice,
    passed_over, search_order,
};

verus! {

/// Number of columns of the board.
pub const WIDTH: usize = 4;

/// Number of rows of the board.
pub const HEIGHT: usize = 4;

/// Number of stones in a row that wins the game.
pub const WIN_LEN: usize = 4;

/// Number of cells of the board (`WIDTH * HEIGHT`).
pub const CELLS: usize = 16;

/// The score of a won game before any stone was played (`WIDTH * HEIGHT + 1`); a win with
/// `count` stones on the board before the winning stone scores `MAX_SCORE - count`.
pub const MAX_SCORE: isize = 17;

/// The lowest score (`-MAX_SCORE`).
pub const MIN_SCORE: isize = -17;

/// The search depth at which a position is scored as even.  A game has at most `CELLS`
/// moves, so a search never gets that deep.
pub const MAX_DEPTH: usize = 16;

/// A position on the board: column `w` and row `h`.
#[derive(Clone, Copy, PartialEq, Eq, Structural, Debug)]
pub struct BoardPos {
    pub w: i8,
    pub h: i8,
}

/// The eight unit steps: right, left, down, up, right-down, left-up, right-up, left-down.
/// Entries `2 * dir` and `2 * dir + 1` are the two ways along direction `dir`.
pub fn direction(i: usize) -> (d: BoardPos)
    requires
        i < 8,
    ensures
        d.w == dir_w(i as int),
        d.h == dir_h(i as int),
{
    match i {
        0 => BoardPos { w: 1, h: 0 },
        1 => BoardPos { w: -1, h: 0 },
        2 => BoardPos { w: 0, h: 1 },
        3 => BoardPos { w: 0, h: -1 },
        4 => BoardPos { w: 1, h: 1 },
        5 => BoardPos { w: -1, h: -1 },
        6 => BoardPos { w: 1, h: -1 },
        _ => BoardPos { w: -1, h: 1 },
    }
}

/// The symbol that shows a cell: blank when empty, `o` for a stone of the player `false`,
/// `x` for one of the player `true`.
pub fn cell_symbol(v: u8) -> (c: char)
    requires
        v <= 2,
    ensures
        c == if v == 0 {
            ' '
        } else if v == 1 {
            'o'
        } else {
            'x'
        },
{
    match v {
        0 => ' ',
        1 => 'o',
        _ => 'x',
    }
}

impl BoardPos {
    /// The position lies on the board.
    pub open spec fn on_board(self) -> bool {
        0 <= self.w < WIDTH && 0 <= self.h < HEIGHT
    }

    /// The index of the position in a board array.
    pub open spec fn index(self) -> int {
        self.w * HEIGHT + self.h
    }

    /// Whether the position lies on the board.
    pub fn is_valid(&self) -> (r: bool)
        ensures
            r == self.on_board(),
    {
        if self.w < 0 || self.w >= WIDTH as i8 || self.h < 0 || self.h >= HEIGHT as i8 {
            return false;
        }
        true
    }

    /// The index of the position in a board array, for a position with non-negative
    /// coordinates.
    pub fn get_usize(&self) -> (r: usize)
        requires
            0 <= self.w,
            0 <= self.h,
        ensures
            r == self.index(),
            self.on_board() ==> r < CELLS,
    {
        return self.w as usize * HEIGHT + self.h as usize;
    }

    /// The position of the top-left cell.
    pub fn zero() -> (r: Self)
        ensures
            r.w == 0 && r.h == 0,
    {
        return Self { h: 0, w: 0 };
    }

    /// The position reached by the step `rhs`.
    pub fn offset(self, rhs: Self) -> (r: Self)
        requires
            -128 <= self.w + rhs.w <= 127,
            -128 <= self.h + rhs.h <= 127,
        ensures
            r.w == self.w + rhs.w,
            r.h == self.h + rhs.h,
    {
        BoardPos { w: self.w + rhs.w, h: self.h + rhs.h }
    }
}

/// The state of a game.
#[derive(PartialEq, Eq, Structural, Debug)]
pub enum AlgoState {
    InGame,
    Draw,
    /// The player of this sign made `WIN_LEN` in a row.
    Won(bool),
}

/// A game: the board, the number of stones on it, and the lines and cell values of the
/// search heuristic.
pub struct Algo {
    state: AlgoState,
    board: [u8; 16],
    count: isize,
    lines: Lines,
}

impl Algo {
    /// The cells of the board: 0 empty, `sign as u8 + 1` a stone of player `sign`.
    pub closed spec fn board_cells(&self) -> Seq<u8> {
        self.board@
    }

    /// The number of stones on the board.
    pub closed spec fn stone_count(&self) -> int {
        self.count as int
    }

    /// The lines and cell values of the heuristic.
    pub closed spec fn heuristic_lines(&self) -> Lines {
        self.lines
    }

    /// The state of the game.
    pub closed spec fn game_state(&self) -> AlgoState {
        self.state
    }

    /// The board, the count and the state fit together, and while the game goes on the lines
    /// describe the board.
    pub closed spec fn wf(&self) -> bool {
        &&& board_ok(self.board@)
        &&& stones(self.board@) == self.count
        &&& 0 <= self.count <= 16
        &&& self.state == AlgoState::InGame ==> {
            &&& self.lines.wf(self.board@)
            &&& self.lines.board@ == self.board@
            &&& self.count < 16
        }
    }

    /// What every game keeps: the count is the number of stones on the board, every cell is
    /// empty or holds a stone, and a game that goes on has an empty cell and no four in a row.
    pub proof fn lemma_game_invariant(&self)
        requires
            self.wf(),
        ensures
            board_ok(self.board_cells()),
            stones(self.board_cells()) == self.stone_count(),
            0 <= self.stone_count() <= CELLS,
            self.game_state() == AlgoState::InGame ==> self.stone_count() < CELLS && no_four(self.board_cells()),
    {
        if self.state == AlgoState::InGame {
            lemma_wf_board(self.lines, self.board@);
        }
    }

    /// A game on the empty board.
    pub fn empty() -> (r: Self)
        ensures
            r.wf(),
            r.game_state() == AlgoState::InGame,
            r.board_cells() == empty_board(),
            r.stone_count() == 0,
    {
        let r = Self { state: AlgoState::InGame, board: [0;CELLS], count: 0, lines: Lines::new() };
        proof {
            assert(r.board@ == empty_board());
            assert(stones_upto(r.board@, 16) == 0) by {
                reveal_with_fuel(stones_upto, 17);
            }
        }
        r
    }

    /// The state of the game.
    pub fn get_state(&self) -> (r: &AlgoState)
        ensures
            *r == self.game_state(),
    {
        return &self.state;
    }

    /// The cells of the board.
    pub fn board(&self) -> (r: [u8; 16])
        ensures
            r@ == self.board_cells(),
    {
        self.board
    }

    /// The lines and cell values of the heuristic.
    pub fn lines(&self) -> (r: &Lines)
        ensures
            *r == self.heuristic_lines(),
    {
        &self.lines
    }

    /// The best move for the player `next_sign` and its score, found by negamax with
    /// alpha-beta pruning over the moves in the order of their heuristic values; `None` when
    /// the game is over.  A move that wins at once scores `MAX_SCORE - count`.  The score is the
    /// value as the search defines it (`game_value`): a position with one empty cell left
    /// scores 0 below the root, so with a single empty cell on the board a move there that
    /// does not win scores `MAX_SCORE` (the full board after it is worth `MIN_SCORE` to the
    /// other player, who has no move).
    #[verifier::rlimit(80)]
    #[verifier::spinoff_prover]
    pub fn calculate(&self, next_sign: bool) -> (res: Option<(BoardPos, isize)>)
        requires
            self.wf(),
        ensures
            res is None <==> self.game_state() != AlgoState::InGame,
            res matches Some((m, s)) ==> {
                &&& m.on_board()
                &&& self.board_cells()[m.index()] == 0
                &&& s == root_value(self.board_cells(), next_sign, self.stone_count())
                &&& can_win(self.board_cells(), next_sign) ==> wins_by(self.board_cells(), m, next_sign)
                &&& !can_win(self.board_cells(), next_sign) ==> move_score(
                    self.board_cells(),
                    next_sign,
                    self.stone_count(),
                    0,
                    m.index(),
                ) == s
                &&& exists|moves: Seq<BoardPos>, n: int|
                    search_order(moves, self.heuristic_lines().values@, n) && first_choice(
                        moves,
                        self.board_cells(),
                        next_sign,
                        self.stone_count(),
                        m,
                        s as int,
                    )
            },
    {
        match self.state {
            AlgoState::InGame => (),
            _ => return None,
        }
        let ghost b0 = self.board@;
        let ghost l0 = self.lines;
        let count = self.count;
        let mut alpha = MIN_SCORE;
        let beta = MAX_SCORE;
        let mut board = self.board;
        let mut lines = self.lines.clone();
        proof {
            lemma_wf_same(l0, lines, b0);
            lemma_wf_board(l0, b0);
        }
        let moves = sorted_moves(self.lines.get_values());
        let mut best_score = MIN_SCORE;
        let mut best_move = BoardPos::zero();
        let mut cut = false;
        let mut won = false;
        let ghost mut bi: int = 0;
        let mut j: usize = 0;
        while j < CELLS && !cut && !won
            invariant
                j <= 16,
                exists|n: int| search_order(moves@, self.lines.values@, n),
                best_score > MIN_SCORE || won ==> 0 <= bi < j && moves@[bi] == best_move,
                !won && best_score > MIN_SCORE ==> forall|i: int|
                    0 <= i < bi && b0[moves@[i].index()] == 0 ==> move_score(b0, next_sign, count as int, 0, (#[trigger] moves@[i]).index())
                        < best_score,
                won ==> forall|i: int|
                    0 <= i < bi && b0[moves@[i].index()] == 0 ==> !wins_by(b0, #[trigger] moves@[i], next_sign),
                board@ == b0,
                !won ==> lines.wf(b0) && lines.same_as(l0),
                l0.wf(b0),
                l0.board@ == b0,
                board_ok(b0),
                is_perm(moves@),
                stones(b0) == count,
                0 <= count <= 15,
                beta == MAX_SCORE,
                won ==> best_move.on_board() && b0[best_move.index()] == 0 && wins_by(b0, best_move, next_sign),
                MIN_SCORE <= best_score <= MAX_SCORE,
                alpha == best_score,
                !cut ==> best_score < MAX_SCORE,
                cut ==> best_score == MAX_SCORE,
                !won && best_score > MIN_SCORE ==> {
                    &&& best_move.on_board()
                    &&& b0[best_move.index()] == 0
                    &&& !wins_by(b0, best_move, next_sign)
                    &&& move_score(b0, next_sign, count as int, 0, best_move.index()) == best_score
                },
                !won ==> forall|i: int|
                    0 <= i < j && b0[moves@[i].index()] == 0 ==> move_score(b0, next_sign, count as int, 0, (#[trigger] moves@[i]).index())
                        <= best_score,
                !won ==> forall|i: int|
                    0 <= i < j && b0[moves@[i].index()] == 0 ==> !wins_by(b0, #[trigger] moves@[i], next_sign),
                !won ==> forall|i: int| 0 <= i < j && b0[(#[trigger] moves@[i]).index()] == 0 ==> best_score > MIN_SCORE,
            decreases 16 - j,
        {
            let m = moves[j];
            let k = m.get_usize();
            if board[k] == 0 {
                let ghost l_pre = lines;
                match lines.update_move(m, next_sign) {
                    UpdateResult::Continue(changes) => {
                        let ghost l1 = lines;
                        let ghost ch = changes;
                        board[k] = next_sign as u8 + 1;
                        proof {
                            assert(board@ == play(b0, m, next_sign));
                            assert(board@ == child(b0, next_sign, k as int));
                            lemma_stones_put(b0, k as int, color(next_sign) as u8, 16);
                            lemma_value_bounds(board@, !next_sign, count + 1, 1);
                        }
                        let score = -negmax(&mut board, !next_sign, count + 1, 1, -beta, -alpha, &mut lines);
                        let ghost l2 = lines;
                        proof {
                            lemma_diffs_fit(lines.values@, changes.value_changes@);
                        }
                        lines.redo_changes(changes);
                        board[k] = 0;
                        proof {
                            assert(board@ =~= b0);
                            lemma_undo_move(l0, l_pre, l1, l2, lines, ch, m, b0);
                        }
                        if score > best_score {
                            proof {
                                bi = j as int;
                            }
                            best_score = score;
                            best_move = m;
                            alpha = if alpha > best_score { alpha } else { best_score };
                            if alpha >= beta {
                                cut = true;
                            }
                        }
                    },
                    UpdateResult::Win(_) => {
                        proof {
                            bi = j as int;
                        }
                        best_move = m;
                        won = true;
                    },
                }
            }
            j += 1;
        }
        if won {
            proof {
                let sc = (MAX_SCORE - count) as int;
                assert(can_win(b0, next_sign));
                assert forall|jj: int| 0 <= jj < bi && b0[moves@[jj].index()] == 0 implies passed_over(
                    b0,
                    next_sign,
                    count as int,
                    #[trigger] moves@[jj],
                    sc,
                ) by {}
                assert(first_choice(moves@, b0, next_sign, count as int, best_move, sc));
                let n = choose|n: int| search_order(moves@, self.lines.values@, n);
                assert(search_order(moves@, self.heuristic_lines().values@, n) && first_choice(
                    moves@, self.board_cells(), next_sign, self.stone_count(), best_move, sc));
            }
            return Some((best_move, MAX_SCORE - count));
        }
        proof {
            lemma_stones_upto(b0, 16, 0);
            assert forall|mk: int| 0 <= mk < 16 && b0[mk] == 0 implies #[trigger] move_score(b0, next_sign, count as int, 0, mk)
                <= MAX_SCORE by {
                lemma_stones_put(b0, mk, color(next_sign) as u8, 16);
                lemma_value_bounds(child(b0, next_sign, mk), !next_sign, count + 1, 1);
            }
            if cut {
                let bk = best_move.index();
                lemma_stones_put(b0, bk, color(next_sign) as u8, 16);
                lemma_value_bounds(child(b0, next_sign, bk), !next_sign, count + 1, 1);
                assert(count == 15);
                assert forall|p: BoardPos| p.on_board() && b0[p.index()] == 0 implies !#[trigger] wins_by(b0, p, next_sign) by {
                    if p.index() != bk {
                        lemma_stones_two_empty(b0, 16, p.index(), bk);
                    }
                    lemma_index_unique(p, best_move);
                }
                lemma_best_from_ge(b0, next_sign, count as int, 0, 0, bk);
                lemma_best_from_le(b0, next_sign, count as int, 0, 0, MAX_SCORE as int);
            } else {
                assert forall|p: BoardPos| p.on_board() && b0[p.index()] == 0 implies !#[trigger] wins_by(b0, p, next_sign) by {
                    assert(holds_cell(moves@, p.index()));
                    let i = choose|i: int| 0 <= i < moves@.len() && #[trigger] moves@[i].index() == p.index();
                    lemma_index_unique(moves@[i], p);
                }
                assert forall|mk: int| 0 <= mk < 16 && b0[mk] == 0 implies #[trigger] move_score(b0, next_sign, count as int, 0, mk)
                    <= best_score by {
                    assert(holds_cell(moves@, mk));
                    let i = choose|i: int| 0 <= i < moves@.len() && #[trigger] moves@[i].index() == mk;
                }
                lemma_best_from_le(b0, next_sign, count as int, 0, 0, best_score as int);
                lemma_stones_empty_cell(b0);
                let e = choose|e: int| 0 <= e < 16 && b0[e] == 0;
                assert(holds_cell(moves@, e));
                let i = choose|i: int| 0 <= i < moves@.len() && #[trigger] moves@[i].index() == e;
                assert(best_score > MIN_SCORE);
                lemma_best_from_ge(b0, next_sign, count as int, 0, 0, best_move.index());
            }
            assert(!can_win(b0, next_sign));
            assert forall|jj: int| 0 <= jj < bi && b0[moves@[jj].index()] == 0 implies passed_over(
                b0,
                next_sign,
                count as int,
                #[trigger] moves@[jj],
                best_score as int,
            ) by {}
            assert(first_choice(moves@, b0, next_sign, count as int, best_move, best_score as int));
            let n = choose|n: int| search_order(moves@, self.lines.values@, n);
            assert(search_order(moves@, self.heuristic_lines().values@, n) && first_choice(
                moves@, self.board_cells(), next_sign, self.stone_count(), best_move, best_score as int));
        }
        Some((best_move, best_score))
    }

    /// Puts a stone of the player `sign` at `pos`.  Returns `false`, changing nothing, when the
    /// game is over or the cell is taken.  Otherwise the game is won when the stone makes
    /// `WIN_LEN` in a row, drawn when it fills the board, and goes on else.
    pub fn make_move(&mut self, pos: BoardPos, sign: bool) -> (ok: bool)
        requires
            old(self).wf(),
            old(self).game_state() == AlgoState::InGame ==> pos.on_board() || (0 <= pos.w && 0 <= pos.h
                && pos.index() < CELLS && old(self).board_cells()[pos.index()] != 0),
        ensures
            final(self).wf(),
            ok == (old(self).game_state() == AlgoState::InGame && old(self).board_cells()[pos.index()] == 0),
            !ok ==> *final(self) == *old(self),
            ok ==> final(self).board_cells() == play(old(self).board_cells(), pos, sign),
            ok ==> final(self).stone_count() == old(self).stone_count() + 1,
            ok ==> final(self).game_state() == if wins_by(old(self).board_cells(), pos, sign) {
                AlgoState::Won(sign)
            } else if old(self).stone_count() + 1 == CELLS {
                AlgoState::Draw
            } else {
                AlgoState::InGame
            },
    {
        match self.state {
            AlgoState::InGame => (),
            _ => return false,
        }
        let k = pos.get_usize();
        if self.board[k] != 0 {
            return false;
        }
        let ghost b0 = self.board@;
        proof {
            lemma_stones_put(b0, k as int, color(sign) as u8, 16);
            lemma_stones_upto(b0, 16, k as int);
        }
        self.board[k] = sign as u8 + 1;
        self.count += 1;
        proof {
            assert(self.board@ == play(b0, pos, sign));
            assert(self.board@ == child(b0, sign, k as int));
        }
        if self.count == CELLS as isize {
            self.state = AlgoState::Draw;
        }
        let result = self.lines.update_move(pos, sign);
        match result {
            UpdateResult::Win(_) => self.state = AlgoState::Won(sign),
            _ => (),
        }
        true
    }
}

} // verus!
