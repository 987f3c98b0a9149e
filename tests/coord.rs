use coronene::coord::{parse_coord, Color, Move, Pos};

#[test]
fn color_tokens() {
    assert_eq!(Color::parse("b"), Some(Color::Black));
    assert_eq!(Color::parse("B"), Some(Color::Black));
    assert_eq!(Color::parse("black"), Some(Color::Black));
    assert_eq!(Color::parse("w"), Some(Color::White));
    assert_eq!(Color::parse("White"), Some(Color::White));
    assert_eq!(Color::parse("x"), None);
    assert_eq!(Color::parse(""), None);
    assert_eq!(Color::Black.to_text(), "B");
    assert_eq!(Color::White.to_text(), "W");
}

#[test]
fn color_invert_is_an_involution() {
    assert_eq!(Color::Black.invert(), Color::White);
    assert_eq!(Color::White.invert(), Color::Black);
    assert_eq!(Color::Black.invert().invert(), Color::Black);
}

#[test]
fn pos_parse_examples() {
    assert_eq!(Pos::parse("a1"), Some(Pos::new(0, 0)));
    assert_eq!(Pos::parse("C4"), Some(Pos::new(2, 3)));
    assert_eq!(Pos::parse("m13"), Some(Pos::new(12, 12)));
    assert_eq!(Pos::parse("z26"), Some(Pos::new(25, 25)));
    assert_eq!(Pos::parse("a0"), Some(Pos::new(0, -1)));
    assert_eq!(Pos::parse("b+3"), Some(Pos::new(1, 2)));
    assert_eq!(Pos::parse(""), None);
    assert_eq!(Pos::parse("1a"), None);
    assert_eq!(Pos::parse("a"), None);
    assert_eq!(Pos::parse("a1x"), None);
    assert_eq!(Pos::parse("a128"), None);
    assert_eq!(Pos::parse("a-128"), None);
    assert_eq!(Pos::parse("a-127"), Some(Pos::new(0, -128)));
}

#[test]
fn pos_text_examples() {
    assert_eq!(Pos::new(0, 0).to_text(), "A1");
    assert_eq!(Pos::new(2, 3).to_text(), "C4");
    assert_eq!(Pos::new(12, 9).to_text(), "M10");
    assert_eq!(Pos::new(25, 99).to_text(), "Z100");
    assert_eq!(Pos::new(26, 126).to_text(), "?127");
}

#[test]
fn pos_round_trip_on_26_by_26() {
    for x in 0..26i8 {
        for y in 0..26i8 {
            let p = Pos::new(x, y);
            assert_eq!(Pos::parse(&p.to_text()), Some(p));
        }
    }
}

#[test]
fn pos_area() {
    assert_eq!(Pos::new(13, 13).area(), 169);
    assert_eq!(Pos::new(5, 3).area(), 15);
    assert_eq!(Pos::new(0, 7).area(), 0);
}

#[test]
fn move_parts_and_text() {
    let m = Move::new(Color::White, Pos::new(1, 2));
    assert_eq!(m, Move::Play { color: Color::White, pos: Pos::new(1, 2) });
    assert_eq!(m.pos(), Some(Pos::new(1, 2)));
    assert_eq!(m.color(), Some(Color::White));
    assert_eq!(Move::Pass.pos(), None);
    assert_eq!(Move::Resign.color(), None);
    assert_eq!(m.to_text(), "B3");
    assert_eq!(Move::Pass.to_text(), "pass");
    assert_eq!(Move::Resign.to_text(), "resign");
}

#[test]
fn coord_parse() {
    assert_eq!(parse_coord("13"), Some(13));
    assert_eq!(parse_coord("-5"), Some(-5));
    assert_eq!(parse_coord("127"), Some(127));
    assert_eq!(parse_coord("128"), None);
    assert_eq!(parse_coord("-128"), Some(-128));
    assert_eq!(parse_coord("1x"), None);
    assert_eq!(parse_coord(""), None);
    assert_eq!(parse_coord("-"), None);
}

#[test]
fn colour_flags_and_offsets() {
    assert_eq!(Color::from(true), Color::White);
    assert_eq!(Color::from(false), Color::Black);
    assert!(bool::from(Color::White));
    assert!(!bool::from(Color::Black));
    assert_eq!(Pos::new(3, 4).offset(Pos::new(-1, 1)), Pos::new(2, 5));
}
