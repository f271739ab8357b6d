use lib::{Algo, AlgoState, BoardPos, MAX_SCORE};

fn pos(w: i8, h: i8) -> BoardPos {
    BoardPos { w, h }
}

/// A full board without four in a row, as alternating moves (`false` first):
/// rows `x o x o`, `x o x o`, `o x o x`, `o x o x`.
fn draw_moves() -> Vec<(BoardPos, bool)> {
    let o = [(1, 0), (3, 0), (1, 1), (3, 1), (0, 2), (2, 2), (0, 3), (2, 3)];
    let x = [(0, 0), (2, 0), (0, 1), (2, 1), (1, 2), (3, 2), (1, 3), (3, 3)];
    let mut moves = Vec::new();
    for i in 0..8 {
        moves.push((pos(o[i].0, o[i].1), false));
        moves.push((pos(x[i].0, x[i].1), true));
    }
    moves
}

#[test]
fn a_new_game_is_empty_and_in_game() {
    let game = Algo::empty();
    assert_eq!(*game.get_state(), AlgoState::InGame);
    assert_eq!(game.board(), [0u8; 16]);
    let values = game.lines().get_values();
    for k in 0..16 {
        assert_eq!(values[k], if k == 10 { 1 } else { 0 });
    }
}

#[test]
fn moves_put_stones_of_each_player() {
    let mut game = Algo::empty();
    assert!(game.make_move(pos(1, 2), false));
    assert!(game.make_move(pos(3, 0), true));
    let board = game.board();
    assert_eq!(board[6], 1);
    assert_eq!(board[12], 2);
    assert_eq!(board.iter().filter(|&&c| c != 0).count(), 2);
    assert_eq!(*game.get_state(), AlgoState::InGame);
}

#[test]
fn a_taken_cell_is_refused() {
    let mut game = Algo::empty();
    assert!(game.make_move(pos(0, 0), false));
    let before = game.board();
    assert!(!game.make_move(pos(0, 0), true));
    assert!(!game.make_move(pos(0, 0), false));
    assert_eq!(game.board(), before);
    assert_eq!(*game.get_state(), AlgoState::InGame);
}

#[test]
fn four_in_a_row_wins() {
    let mut game = Algo::empty();
    let moves = [
        (pos(0, 0), false),
        (pos(0, 1), true),
        (pos(1, 0), false),
        (pos(1, 1), true),
        (pos(2, 0), false),
        (pos(2, 1), true),
    ];
    for (p, s) in moves {
        assert!(game.make_move(p, s));
        assert_eq!(*game.get_state(), AlgoState::InGame);
    }
    assert!(game.make_move(pos(3, 0), false));
    assert_eq!(*game.get_state(), AlgoState::Won(false));
}

#[test]
fn four_in_a_column_and_on_diagonals_win() {
    let mut game = Algo::empty();
    for h in 0..3 {
        assert!(game.make_move(pos(2, h), true));
        assert!(game.make_move(pos(0, h), false));
    }
    assert!(game.make_move(pos(2, 3), true));
    assert_eq!(*game.get_state(), AlgoState::Won(true));

    let mut game = Algo::empty();
    for i in 0..3 {
        assert!(game.make_move(pos(i, i), false));
        assert!(game.make_move(pos(i, 3 - i - 1).offset(pos(1, 0)), true));
    }
    assert_eq!(*game.get_state(), AlgoState::InGame);
    assert!(game.make_move(pos(3, 3), false));
    assert_eq!(*game.get_state(), AlgoState::Won(false));

    let mut game = Algo::empty();
    for i in 0..3 {
        assert!(game.make_move(pos(3 - i, i), true));
        assert!(game.make_move(pos(i, i), false));
    }
    assert!(game.make_move(pos(0, 3), true));
    assert_eq!(*game.get_state(), AlgoState::Won(true));
}

#[test]
fn no_move_after_a_win() {
    let mut game = Algo::empty();
    for h in 0..3 {
        assert!(game.make_move(pos(0, h), false));
        assert!(game.make_move(pos(1, h), true));
    }
    assert!(game.make_move(pos(0, 3), false));
    assert_eq!(*game.get_state(), AlgoState::Won(false));
    assert!(!game.make_move(pos(3, 3), true));
    // Once the game is over, not even a position off the board is looked at.
    assert!(!game.make_move(pos(-1, 7), true));
    assert_eq!(*game.get_state(), AlgoState::Won(false));
    assert_eq!(game.calculate(true), None);
}

#[test]
fn a_full_board_without_four_is_a_draw() {
    let mut game = Algo::empty();
    let moves = draw_moves();
    for (i, (p, s)) in moves.iter().enumerate() {
        assert!(game.make_move(*p, *s));
        if i < 15 {
            assert_eq!(*game.get_state(), AlgoState::InGame);
        }
    }
    assert_eq!(*game.get_state(), AlgoState::Draw);
    assert!(!game.make_move(pos(0, 0), false));
    assert_eq!(game.calculate(false), None);
}

/// Twelve stones; `false` wins at (3, 0) and `true` at (3, 1), nobody anywhere else.
fn two_threats() -> Algo {
    let mut game = Algo::empty();
    let moves = [
        (pos(0, 0), false),
        (pos(0, 1), true),
        (pos(1, 0), false),
        (pos(1, 1), true),
        (pos(2, 0), false),
        (pos(2, 1), true),
        (pos(1, 2), false),
        (pos(0, 2), true),
        (pos(3, 2), false),
        (pos(2, 2), true),
        (pos(0, 3), false),
        (pos(1, 3), true),
    ];
    for (p, s) in moves {
        assert!(game.make_move(p, s));
        assert_eq!(*game.get_state(), AlgoState::InGame);
    }
    game
}

#[test]
fn calculate_takes_an_immediate_win() {
    let game = two_threats();
    // Twelve stones are on the board: a win now scores MAX_SCORE - 12.
    assert_eq!(game.calculate(false), Some((pos(3, 0), MAX_SCORE - 12)));
    assert_eq!(game.calculate(true), Some((pos(3, 1), MAX_SCORE - 12)));
    // Calculating changes nothing.
    assert_eq!(*game.get_state(), AlgoState::InGame);
    assert_eq!(game.board().iter().filter(|&&c| c != 0).count(), 12);
}

#[test]
fn calculate_blocks_the_only_threat() {
    let mut game = Algo::empty();
    let moves = [
        (pos(1, 1), true),
        (pos(0, 0), false),
        (pos(2, 2), true),
        (pos(1, 0), false),
        (pos(3, 3), true),
        (pos(2, 0), false),
        (pos(2, 1), true),
        (pos(0, 1), false),
        (pos(1, 2), true),
    ];
    for (p, s) in moves {
        assert!(game.make_move(p, s));
        assert_eq!(*game.get_state(), AlgoState::InGame);
    }
    // `true` cannot win at once; every move but the block at (3, 0) lets `false` win at once
    // with ten stones on the board, which scores -(MAX_SCORE - 10) for `true`.
    let (m, score) = game.calculate(true).unwrap();
    assert_eq!(m, pos(3, 0));
    assert!(score > -(MAX_SCORE - 10));
}

#[test]
fn calculate_sees_a_forced_loss() {
    let mut game = Algo::empty();
    let moves = [
        (pos(0, 0), false),
        (pos(1, 1), true),
        (pos(1, 0), false),
        (pos(2, 2), true),
        (pos(2, 0), false),
        (pos(3, 3), true),
        (pos(0, 1), false),
        (pos(2, 1), true),
        (pos(0, 2), false),
        (pos(1, 2), true),
    ];
    for (p, s) in moves {
        assert!(game.make_move(p, s));
    }
    // `false` threatens (3, 0) and (0, 3); whatever `true` plays, `false` wins next with
    // eleven stones on the board.
    let (m, score) = game.calculate(true).unwrap();
    assert_eq!(score, -(MAX_SCORE - 11));
    assert_eq!(game.board()[m.get_usize()], 0);
    // `false` to move wins at once at the first of its two cells in the search order.
    let (m, score) = game.calculate(false).unwrap();
    assert_eq!(score, MAX_SCORE - 10);
    assert!(m == pos(3, 0) || m == pos(0, 3));
}

#[test]
fn calculate_with_one_cell_left() {
    let mut game = Algo::empty();
    let moves = draw_moves();
    for (p, s) in &moves[..15] {
        assert!(game.make_move(*p, *s));
    }
    // The last move fills the board without a win; the search scores the full board as
    // `MIN_SCORE` for the player to move after it, so the move scores `MAX_SCORE`.
    assert_eq!(game.calculate(true), Some((pos(3, 3), MAX_SCORE)));
}

#[test]
fn calculate_with_two_cells_left() {
    let mut game = Algo::empty();
    let moves = draw_moves();
    for (p, s) in &moves[..14] {
        assert!(game.make_move(*p, *s));
    }
    // Neither cell wins, and one cell left scores even.
    let (m, score) = game.calculate(false).unwrap();
    assert_eq!(score, 0);
    assert!(m == pos(2, 3) || m == pos(3, 3));
}

#[test]
fn a_position_off_the_board_that_indexes_a_taken_cell_is_refused() {
    let mut game = Algo::empty();
    assert!(game.make_move(pos(1, 1), false));
    // (0, 5) lies off the board but has the index of (1, 1), which is taken.
    assert!(!game.make_move(pos(0, 5), true));
    assert_eq!(game.board().iter().filter(|&&c| c != 0).count(), 1);
}
