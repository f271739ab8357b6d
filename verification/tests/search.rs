use lib::lines::{Lines, UpdateResult};
use lib::negmax::{get_moves, negmax, sorted_moves};
use lib::{Algo, BoardPos, MAX_SCORE, MIN_SCORE};

fn pos(w: i8, h: i8) -> BoardPos {
    BoardPos { w, h }
}

/// Plays the moves on a board and its lines; none of them may win.
fn setup(moves: &[(BoardPos, bool)]) -> ([u8; 16], Lines) {
    let mut board = [0u8; 16];
    let mut lines = Lines::new();
    for (p, s) in moves {
        match lines.update_move(*p, *s) {
            UpdateResult::Continue(_) => {}
            UpdateResult::Win(_) => panic!("setup move wins"),
        }
        board[p.get_usize()] = *s as u8 + 1;
    }
    (board, lines)
}

fn draw_moves() -> Vec<(BoardPos, bool)> {
    let o = [(1, 0), (3, 0), (1, 1), (3, 1), (0, 2), (2, 2), (0, 3), (2, 3)];
    let x = [(0, 0), (2, 0), (0, 1), (2, 1), (1, 2), (3, 2), (1, 3), (3, 3)];
    let mut moves = Vec::new();
    for i in 0..8 {
        moves.push((pos(o[i].0, o[i].1), false));
        moves.push((pos(x[i].0, x[i].1), true));
    }
    moves
}

#[test]
fn all_moves_in_index_order() {
    let moves = get_moves();
    for i in 0..16 {
        assert_eq!(moves[i].get_usize(), i);
        assert_eq!(moves[i], pos((i / 4) as i8, (i % 4) as i8));
    }
}

#[test]
fn sorted_moves_put_valued_cells_first() {
    let mut values = [0i16; 16];
    values[5] = 3;
    values[2] = 7;
    values[9] = 3;
    values[0] = -1;
    let moves = sorted_moves(&values);
    // Equal values by increasing index; the cells of value 0 as the first pass leaves them.
    let order: Vec<usize> = moves.iter().map(|m| m.get_usize()).collect();
    assert_eq!(order, vec![2, 5, 9, 0, 4, 1, 6, 7, 8, 3, 10, 11, 12, 13, 14, 15]);
    assert_eq!(moves[0].get_usize(), 2);
    let mut ties = [moves[1].get_usize(), moves[2].get_usize()];
    ties.sort();
    assert_eq!(ties, [5, 9]);
    assert_eq!(moves[3].get_usize(), 0);
    let mut seen = [false; 16];
    for m in moves.iter() {
        assert!(m.is_valid());
        assert!(!seen[m.get_usize()]);
        seen[m.get_usize()] = true;
    }
    for m in &moves[4..] {
        assert_eq!(values[m.get_usize()], 0);
    }
}

#[test]
fn sorted_moves_of_all_zero_values_lists_every_cell() {
    let moves = sorted_moves(&[0i16; 16]);
    let mut idx: Vec<usize> = moves.iter().map(|m| m.get_usize()).collect();
    idx.sort();
    assert_eq!(idx, (0..16).collect::<Vec<usize>>());
}

#[test]
fn negmax_scores_one_cell_left_as_even() {
    let moves = draw_moves();
    let (mut board, mut lines) = setup(&moves[..15]);
    let before = board;
    let values = *lines.get_values();
    assert_eq!(negmax(&mut board, true, 15, 0, MIN_SCORE, MAX_SCORE, &mut lines), 0);
    assert_eq!(board, before);
    assert_eq!(*lines.get_values(), values);
}

#[test]
fn negmax_scores_an_immediate_win() {
    let moves = [
        (pos(0, 0), false),
        (pos(0, 1), true),
        (pos(1, 0), false),
        (pos(1, 1), true),
        (pos(2, 0), false),
        (pos(2, 1), true),
        (pos(1, 2), false),
        (pos(0, 2), true),
        (pos(3, 2), false),
        (pos(2, 2), true),
        (pos(0, 3), false),
        (pos(1, 3), true),
    ];
    let (mut board, mut lines) = setup(&moves);
    let before = board;
    let values = *lines.get_values();
    assert_eq!(negmax(&mut board, false, 12, 0, MIN_SCORE, MAX_SCORE, &mut lines), MAX_SCORE - 12);
    assert_eq!(negmax(&mut board, true, 12, 0, MIN_SCORE, MAX_SCORE, &mut lines), MAX_SCORE - 12);
    // With a window below the value the result is still a lower bound of it.
    assert!(negmax(&mut board, false, 12, 0, MIN_SCORE, 2, &mut lines) >= 2);
    assert_eq!(board, before);
    assert_eq!(*lines.get_values(), values);
}

#[test]
fn negmax_sees_a_forced_loss() {
    let moves = [
        (pos(0, 0), false),
        (pos(1, 1), true),
        (pos(1, 0), false),
        (pos(2, 2), true),
        (pos(2, 0), false),
        (pos(3, 3), true),
        (pos(0, 1), false),
        (pos(2, 1), true),
        (pos(0, 2), false),
        (pos(1, 2), true),
    ];
    let (mut board, mut lines) = setup(&moves);
    assert_eq!(negmax(&mut board, true, 10, 0, MIN_SCORE, MAX_SCORE, &mut lines), -(MAX_SCORE - 11));
    // A window above the value gives an upper bound of it.
    assert!(negmax(&mut board, true, 10, 0, 0, MAX_SCORE, &mut lines) <= 0);
}

#[test]
fn negmax_beyond_the_best_possible_score_cuts_off() {
    let (mut board, mut lines) = setup(&[(pos(1, 1), false), (pos(2, 2), true)]);
    // With two stones on the board no result can exceed MAX_SCORE - 2, so a window above it
    // gives that bound back at once.
    assert_eq!(negmax(&mut board, false, 2, 0, MAX_SCORE - 2, MAX_SCORE, &mut lines), MAX_SCORE - 2);
}

#[test]
fn negmax_at_the_depth_limit_is_even() {
    let (mut board, mut lines) = setup(&[(pos(1, 1), false), (pos(2, 2), true)]);
    assert_eq!(negmax(&mut board, false, 2, 16, MIN_SCORE, MAX_SCORE, &mut lines), 0);
}

#[test]
fn negmax_with_two_cells_left() {
    let moves = draw_moves();
    let (mut board, mut lines) = setup(&moves[..14]);
    assert_eq!(negmax(&mut board, false, 14, 0, MIN_SCORE, MAX_SCORE, &mut lines), 0);
}

#[test]
fn calculate_agrees_with_a_full_window_search() {
    let moves = [
        (pos(1, 1), true),
        (pos(0, 0), false),
        (pos(2, 2), true),
        (pos(1, 0), false),
        (pos(3, 3), true),
        (pos(2, 0), false),
        (pos(2, 1), true),
        (pos(0, 1), false),
        (pos(1, 2), true),
    ];
    let mut game = Algo::empty();
    for (p, s) in moves {
        assert!(game.make_move(p, s));
    }
    let (mut board, mut lines) = setup(&moves);
    assert_eq!(board, game.board());
    for sign in [false, true] {
        let (_, score) = game.calculate(sign).unwrap();
        let value = negmax(&mut board, sign, 9, 0, MIN_SCORE, MAX_SCORE, &mut lines);
        assert_eq!(score, value);
        // Every value lies between `count - 16` and `MAX_SCORE - count`.
        assert!(9 - 16 <= value && value <= MAX_SCORE - 9);
    }
}

#[test]
fn negmax_accepts_any_window_and_depth() {
    let moves = [
        (pos(0, 0), false),
        (pos(1, 1), true),
        (pos(1, 0), false),
        (pos(2, 2), true),
        (pos(2, 0), false),
        (pos(3, 3), true),
        (pos(0, 1), false),
        (pos(2, 1), true),
        (pos(0, 2), false),
        (pos(1, 2), true),
    ];
    let (mut board, mut lines) = setup(&moves);
    let values = *lines.get_values();
    // The widest window gives the exact value, as the score window does.
    assert_eq!(negmax(&mut board, true, 10, 0, isize::MIN + 1, isize::MAX, &mut lines), -(MAX_SCORE - 11));
    // A search that starts past the depth limit never meets it and searches to the end.
    assert_eq!(negmax(&mut board, true, 10, 20, isize::MIN + 1, isize::MAX, &mut lines), -(MAX_SCORE - 11));
    // A window below every score: the result is a lower bound of the value, in the score range.
    let r = negmax(&mut board, true, 10, 0, -1000, -900, &mut lines);
    assert!(r >= -900 && r <= MAX_SCORE - 10);
    assert_eq!(*lines.get_values(), values);
}
