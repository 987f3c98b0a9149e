use coronene::board::Board;
use coronene::coord::{Color, Move, Pos};

fn stone(b: &mut Board, c: Color, s: &str) -> bool {
    b.play(Move::new(c, Pos::parse(s).unwrap()))
}

fn snapshot(b: &Board) -> Vec<Option<Color>> {
    let d = b.dimensions();
    let mut v = Vec::new();
    for y in 0..d.y {
        for x in 0..d.x {
            v.push(b.get(Pos::new(x, y)));
        }
    }
    v
}

#[test]
fn new_board_is_empty() {
    let b = Board::new(Pos::new(5, 4));
    assert_eq!(b.dimensions(), Pos::new(5, 4));
    assert_eq!(b.winner(), None);
    assert_eq!(b.to_play(), Color::Black);
    assert_eq!(b.last_move(), Move::Pass);
    assert_eq!(b.empty_cells().len(), 20);
    assert_eq!(b.filled_cells().len(), 0);
    assert!(b.is_empty(Pos::new(4, 3)));
}

#[test]
fn off_board_reads_edge_colours() {
    let b = Board::new(Pos::new(5, 5));
    assert_eq!(b.get(Pos::new(-1, 2)), Some(Color::White));
    assert_eq!(b.get(Pos::new(5, 0)), Some(Color::White));
    assert_eq!(b.get(Pos::new(2, -1)), Some(Color::Black));
    assert_eq!(b.get(Pos::new(4, 5)), Some(Color::Black));
    assert_eq!(b.get(Pos::new(-1, -1)), None);
    assert_eq!(b.get(Pos::new(5, 5)), None);
    assert!(!b.on_board(Pos::new(5, 1)));
    assert!(b.on_board(Pos::new(4, 4)));
}

#[test]
fn black_column_connects_top_to_bottom() {
    let mut b = Board::new(Pos::new(5, 5));
    for s in ["a1", "a2", "a3", "a4"] {
        assert!(stone(&mut b, Color::Black, s));
        assert_eq!(b.winner(), None);
    }
    assert!(stone(&mut b, Color::Black, "a5"));
    assert_eq!(b.winner(), Some(Color::Black));
}

#[test]
fn white_row_connects_left_to_right() {
    let mut b = Board::new(Pos::new(5, 5));
    for s in ["a1", "b1", "c1", "d1"] {
        assert!(stone(&mut b, Color::White, s));
        assert_eq!(b.winner(), None);
    }
    assert!(stone(&mut b, Color::White, "e1"));
    assert_eq!(b.winner(), Some(Color::White));
}

#[test]
fn black_first_row_touches_one_edge_only() {
    let mut b = Board::new(Pos::new(5, 5));
    for s in ["a1", "b1", "c1", "d1", "e1"] {
        assert!(stone(&mut b, Color::Black, s));
    }
    assert_eq!(b.winner(), None);
    for s in ["a2", "a3", "a4", "a5"] {
        assert!(stone(&mut b, Color::Black, s));
    }
    assert_eq!(b.winner(), Some(Color::Black));
}

#[test]
fn diagonal_chain_connects() {
    // (4,0) (3,1) (2,2) (1,3) (0,4) are joined by the (-1, 1) neighbour step.
    let mut b = Board::new(Pos::new(5, 5));
    for s in ["e1", "d2", "c3", "b4"] {
        assert!(stone(&mut b, Color::Black, s));
        assert_eq!(b.winner(), None);
    }
    assert!(stone(&mut b, Color::Black, "a5"));
    assert_eq!(b.winner(), Some(Color::Black));
}

#[test]
fn the_other_diagonal_does_not_connect() {
    // (0,0) (1,1) are not hex neighbours.
    let mut b = Board::new(Pos::new(3, 3));
    for s in ["a1", "b2", "c3"] {
        assert!(stone(&mut b, Color::Black, s));
    }
    assert_eq!(b.winner(), None);
}

#[test]
fn play_refuses_occupied_and_off_board() {
    let mut b = Board::new(Pos::new(3, 3));
    assert!(stone(&mut b, Color::Black, "b2"));
    assert_eq!(b.to_play(), Color::White);
    assert_eq!(b.last_move(), Move::new(Color::Black, Pos::new(1, 1)));
    let before = snapshot(&b);
    assert!(!stone(&mut b, Color::White, "b2"));
    assert!(!b.play(Move::new(Color::White, Pos::new(3, 0))));
    assert!(!b.play(Move::new(Color::White, Pos::new(-1, -1))));
    assert_eq!(snapshot(&b), before);
    assert_eq!(b.to_play(), Color::White);
    assert_eq!(b.last_move(), Move::new(Color::Black, Pos::new(1, 1)));
    assert!(b.play(Move::Pass));
    assert_eq!(b.last_move(), Move::Pass);
    assert!(b.play(Move::Resign));
    assert_eq!(b.last_move(), Move::Resign);
}

#[test]
fn cell_lists_follow_index_order() {
    let mut b = Board::new(Pos::new(3, 2));
    assert!(stone(&mut b, Color::Black, "b1"));
    assert!(stone(&mut b, Color::White, "a2"));
    assert_eq!(
        b.empty_cells(),
        vec![Pos::new(0, 0), Pos::new(2, 0), Pos::new(1, 1), Pos::new(2, 1)]
    );
    assert_eq!(
        b.filled_cells(),
        vec![Move::new(Color::Black, Pos::new(1, 0)), Move::new(Color::White, Pos::new(0, 1))]
    );
}

#[test]
fn non_square_board_uses_width_for_indices() {
    let mut b = Board::new(Pos::new(4, 2));
    assert!(stone(&mut b, Color::White, "a2"));
    assert!(stone(&mut b, Color::White, "b2"));
    assert!(stone(&mut b, Color::White, "c2"));
    assert_eq!(b.get(Pos::new(2, 1)), Some(Color::White));
    assert_eq!(b.get(Pos::new(2, 0)), None);
    assert_eq!(b.winner(), None);
    assert!(stone(&mut b, Color::White, "d2"));
    assert_eq!(b.winner(), Some(Color::White));
}

#[test]
fn clearing_a_cell_breaks_the_chain() {
    let mut b = Board::new(Pos::new(3, 3));
    for s in ["b1", "b2", "b3"] {
        assert!(stone(&mut b, Color::Black, s));
    }
    assert_eq!(b.winner(), Some(Color::Black));
    b.clear_cell(Pos::new(1, 1));
    assert_eq!(b.winner(), None);
    assert_eq!(b.get(Pos::new(1, 1)), None);
    assert_eq!(b.get(Pos::new(1, 0)), Some(Color::Black));
    // b1 (1,0) - a2 (0,1) - a3 (0,2) - b3 (1,2) goes round the hole.
    assert!(stone(&mut b, Color::Black, "a2"));
    assert_eq!(b.winner(), None);
    assert!(stone(&mut b, Color::Black, "a3"));
    assert_eq!(b.winner(), Some(Color::Black));
}

#[test]
fn set_overwrites_and_rebuilds() {
    let mut b = Board::new(Pos::new(3, 3));
    for s in ["b1", "b2", "b3"] {
        assert!(stone(&mut b, Color::Black, s));
    }
    assert!(b.set(Pos::new(1, 1), Some(Color::White)));
    assert_eq!(b.winner(), None);
    assert!(b.set(Pos::new(0, 1), Some(Color::White)));
    assert!(b.set(Pos::new(2, 1), Some(Color::White)));
    assert_eq!(b.winner(), Some(Color::White));
    assert!(!b.set(Pos::new(3, 1), Some(Color::White)));
}

#[test]
fn clear_after_play_restores_cells_and_winner() {
    let mut b = Board::new(Pos::new(4, 4));
    for (c, s) in [(Color::Black, "a1"), (Color::White, "b1"), (Color::Black, "a2"), (Color::White, "c3")] {
        assert!(stone(&mut b, c, s));
    }
    let cells = snapshot(&b);
    let winner = b.winner();
    assert!(stone(&mut b, Color::Black, "a3"));
    b.clear_cell(Pos::new(0, 2));
    assert_eq!(snapshot(&b), cells);
    assert_eq!(b.winner(), winner);
}

#[test]
fn clone_keeps_the_position() {
    let mut b = Board::new(Pos::new(3, 3));
    assert!(stone(&mut b, Color::White, "a1"));
    let mut c = b.clone();
    assert_eq!(snapshot(&c), snapshot(&b));
    assert!(stone(&mut c, Color::White, "b1"));
    assert!(stone(&mut c, Color::White, "c1"));
    assert_eq!(c.winner(), Some(Color::White));
    assert_eq!(b.winner(), None);
    assert_eq!(b.get(Pos::new(1, 0)), None);
}

#[test]
fn board_picture() {
    let mut b = Board::new(Pos::new(2, 2));
    assert!(stone(&mut b, Color::Black, "a1"));
    assert!(stone(&mut b, Color::White, "b2"));
    assert_eq!(b.to_text(), "  a b \n 1\\B +\\1\n  2\\+ W\\2\n     a b ");
}

#[test]
fn board_picture_two_digit_rows() {
    let b = Board::new(Pos::new(1, 10));
    let text = b.to_text();
    let lines: Vec<&str> = text.split('\n').collect();
    assert_eq!(lines.len(), 12);
    assert_eq!(lines[0], "  a ");
    assert_eq!(lines[1], " 1\\+\\1");
    assert_eq!(lines[10], "         10\\+\\10");
    assert_eq!(lines[11], "             a ");
}
