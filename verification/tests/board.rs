use lib::{cell_symbol, direction, BoardPos};

#[test]
fn positions_on_and_off_the_board() {
    assert!(BoardPos { w: 0, h: 0 }.is_valid());
    assert!(BoardPos { w: 3, h: 3 }.is_valid());
    assert!(!BoardPos { w: 4, h: 0 }.is_valid());
    assert!(!BoardPos { w: 0, h: 4 }.is_valid());
    assert!(!BoardPos { w: -1, h: 2 }.is_valid());
    assert!(!BoardPos { w: 2, h: -1 }.is_valid());
}

#[test]
fn cell_indices_go_by_columns() {
    assert_eq!(BoardPos { w: 0, h: 0 }.get_usize(), 0);
    assert_eq!(BoardPos { w: 0, h: 3 }.get_usize(), 3);
    assert_eq!(BoardPos { w: 1, h: 0 }.get_usize(), 4);
    assert_eq!(BoardPos { w: 2, h: 3 }.get_usize(), 11);
    assert_eq!(BoardPos { w: 3, h: 3 }.get_usize(), 15);
}

#[test]
fn zero_and_offsets() {
    assert_eq!(BoardPos::zero(), BoardPos { w: 0, h: 0 });
    let p = BoardPos { w: 2, h: 1 };
    assert_eq!(p.offset(BoardPos { w: -1, h: 1 }), BoardPos { w: 1, h: 2 });
    assert_eq!(BoardPos { w: 0, h: 0 }.offset(BoardPos { w: -1, h: -1 }), BoardPos { w: -1, h: -1 });
}

#[test]
fn the_eight_directions_come_in_opposite_pairs() {
    let expected = [(1, 0), (-1, 0), (0, 1), (0, -1), (1, 1), (-1, -1), (1, -1), (-1, 1)];
    for i in 0..8 {
        let d = direction(i);
        assert_eq!((d.w, d.h), expected[i]);
    }
    for f in 0..4 {
        let a = direction(2 * f);
        let b = direction(2 * f + 1);
        assert_eq!((a.w + b.w, a.h + b.h), (0, 0));
    }
}

#[test]
fn cell_symbols() {
    assert_eq!(cell_symbol(0), ' ');
    assert_eq!(cell_symbol(1), 'o');
    assert_eq!(cell_symbol(2), 'x');
}
