use lib::lines::{Lines, UpdateResult};
use lib::BoardPos;

fn pos(w: i8, h: i8) -> BoardPos {
    BoardPos { w, h }
}

fn rows_text(lines: &Lines) -> String {
    format!("{:?} {:?} {:?} {:?}", lines.lr, lines.ud, lines.lu_rd, lines.ru_ld)
}

#[test]
fn new_lines_have_empty_rows_and_the_centre_value() {
    let lines = Lines::new();
    assert_eq!(lines.lr.len(), 4);
    assert_eq!(lines.ud.len(), 4);
    assert_eq!(lines.lu_rd.len(), 7);
    assert_eq!(lines.ru_ld.len(), 7);
    for row in lines.lr.iter().chain(lines.ud.iter()).chain(lines.lu_rd.iter()).chain(lines.ru_ld.iter()) {
        assert!(row.lines.is_empty());
    }
    let mut expected = [0i16; 16];
    expected[10] = 1;
    assert_eq!(*lines.get_values(), expected);
}

#[test]
fn a_corner_stone_starts_lines_toward_the_board() {
    let mut lines = Lines::new();
    match lines.update_move(pos(0, 0), false) {
        UpdateResult::Continue(changes) => {
            assert_eq!(changes.value_changes, vec![(4, 1), (1, 1), (5, 1), (0, 0)]);
            assert_eq!(changes.old_lines[0].0, 0);
            assert_eq!(changes.old_lines[1].0, 0);
            assert_eq!(changes.old_lines[2].0, 3);
            assert_eq!(changes.old_lines[3].0, 0);
        }
        UpdateResult::Win(_) => panic!("no win with one stone"),
    }
    let mut expected = [0i16; 16];
    expected[10] = 1;
    expected[4] = 1;
    expected[1] = 1;
    expected[5] = 1;
    assert_eq!(*lines.get_values(), expected);
    // The row through both corners has no line: both of its ends lie off the board.
    assert!(lines.ru_ld[0].lines.is_empty());
    assert_eq!(lines.lr[0].lines.len(), 1);
}

#[test]
fn a_middle_stone_is_open_at_both_ends() {
    let mut lines = Lines::new();
    match lines.update_move(pos(1, 1), true) {
        UpdateResult::Continue(changes) => {
            // Each direction gives both neighbours 2; the stone's own cell loses its value 0.
            assert_eq!(changes.value_changes.len(), 9);
        }
        UpdateResult::Win(_) => panic!("no win with one stone"),
    }
    let v = lines.get_values();
    for (w, h) in [(0, 1), (2, 1), (1, 0), (1, 2), (0, 0), (2, 2), (2, 0), (0, 2)] {
        assert_eq!(v[w * 4 + h], if (w, h) == (2, 2) { 3 } else { 2 });
    }
    assert_eq!(v[5], 0);
}

#[test]
fn redo_changes_takes_a_move_back() {
    let mut lines = Lines::new();
    let moves = [(pos(1, 1), false), (pos(2, 1), true), (pos(1, 2), false)];
    for (p, s) in moves {
        match lines.update_move(p, s) {
            UpdateResult::Continue(_) => {}
            UpdateResult::Win(_) => panic!("no win"),
        }
    }
    let values = *lines.get_values();
    let rows = rows_text(&lines);
    for (p, s) in [(pos(2, 2), true), (pos(0, 0), false), (pos(3, 3), true), (pos(1, 0), false)] {
        match lines.update_move(p, s) {
            UpdateResult::Continue(changes) => {
                assert_ne!(*lines.get_values(), values);
                lines.redo_changes(changes);
            }
            UpdateResult::Win(_) => panic!("no win"),
        }
        assert_eq!(*lines.get_values(), values);
        assert_eq!(rows_text(&lines), rows);
    }
}

#[test]
fn the_fourth_stone_in_a_row_wins() {
    let mut lines = Lines::new();
    for w in 0..3 {
        match lines.update_move(pos(w, 0), false) {
            UpdateResult::Continue(_) => {}
            UpdateResult::Win(_) => panic!("no win yet"),
        }
    }
    // Three in a row open at (3, 0): the square of the length lies on that cell.
    assert_eq!(lines.get_values()[12], 9);
    let values = *lines.get_values();
    let rows = rows_text(&lines);
    match lines.update_move(pos(3, 0), false) {
        UpdateResult::Win(changes) => {
            assert!(changes.value_changes.is_empty());
            lines.redo_changes(changes);
        }
        UpdateResult::Continue(_) => panic!("four in a row"),
    }
    assert_eq!(*lines.get_values(), values);
    assert_eq!(rows_text(&lines), rows);
}

#[test]
fn the_other_player_cuts_a_line() {
    let mut lines = Lines::new();
    for w in 0..2 {
        match lines.update_move(pos(w, 0), false) {
            UpdateResult::Continue(_) => {}
            UpdateResult::Win(_) => panic!("no win"),
        }
    }
    assert_eq!(lines.get_values()[8], 4);
    match lines.update_move(pos(2, 0), true) {
        UpdateResult::Continue(_) => {}
        UpdateResult::Win(_) => panic!("no win"),
    }
    // The line of `false` is closed; `true` starts a line toward (3, 0).
    assert_eq!(lines.lr[0].lines.len(), 1);
    assert!(lines.lr[0].lines[0].sign);
}

#[test]
fn a_clone_holds_the_same_lines_and_values() {
    let mut lines = Lines::new();
    for (p, s) in [(pos(1, 1), false), (pos(2, 2), true)] {
        match lines.update_move(p, s) {
            UpdateResult::Continue(_) => {}
            UpdateResult::Win(_) => panic!("no win"),
        }
    }
    let copy = lines.clone();
    assert_eq!(*copy.get_values(), *lines.get_values());
    assert_eq!(rows_text(&copy), rows_text(&lines));
}
