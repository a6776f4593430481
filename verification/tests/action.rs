use rubiks::action::{digit_name, Action, Move, QuarterTurn, Turn};
use rubiks::cube::{Cube, Position};
use rubiks::cubelet::Axis;
use rubiks::error::ErrorKind;

#[test]
fn moves_that_turn_nothing_are_equal() {
    assert_eq!(Move(Axis::X, 0, 0), Move(Axis::Z, 0, 0));
    assert_eq!(Move(Axis::X, 1, 2), Move(Axis::X, 1, 2));
    assert_ne!(Move(Axis::X, 1, 2), Move(Axis::Y, 1, 2));
    assert_ne!(Move(Axis::X, 1, 2), Move(Axis::X, 2, 1));
    assert_ne!(Move(Axis::X, 0, 0), Move(Axis::X, 0, 1));
}

#[test]
fn the_inverse_of_a_move() {
    assert_eq!(Move::inverse(&Move(Axis::X, 1, 0)), Move(Axis::X, 3, 0));
    assert_eq!(Move::inverse(&Move(Axis::Y, 2, 3)), Move(Axis::Y, 2, 1));
    assert_eq!(Move::inverse(&Move(Axis::Z, 0, 0)), Move(Axis::Z, 0, 0));
    assert_eq!(Move::inverse(&Move(Axis::Z, 4, 5)), Move(Axis::Z, 0, 3));
    for m in Move::all() {
        assert_eq!(Move::reduce(m, Move::inverse(&m)), (None, None));
    }
}

#[test]
fn reduce_adds_turns_about_one_axis() {
    assert_eq!(
        Move::reduce(Move(Axis::X, 1, 0), Move(Axis::X, 1, 3)),
        (Some(Move(Axis::X, 2, 3)), None)
    );
    assert_eq!(Move::reduce(Move(Axis::X, 1, 3), Move(Axis::X, 3, 1)), (None, None));
    assert_eq!(
        Move::reduce(Move(Axis::X, 1, 3), Move(Axis::Y, 3, 1)),
        (Some(Move(Axis::X, 1, 3)), Some(Move(Axis::Y, 3, 1)))
    );
    assert_eq!(
        Move::reduce(Move(Axis::Z, 3, 3), Move(Axis::Z, 3, 3)),
        (Some(Move(Axis::Z, 2, 2)), None)
    );
    assert_eq!(
        Move::reduce(Move(Axis::Z, 255, 0), Move(Axis::Z, 255, 0)),
        (Some(Move(Axis::Z, 2, 0)), None)
    );
}

#[test]
fn the_vocabularies() {
    let moves = Move::all();
    assert_eq!(moves.len(), 45);
    assert_eq!(moves[0], Move(Axis::X, 0, 1));
    assert_eq!(moves[1], Move(Axis::Y, 0, 1));
    assert_eq!(moves[2], Move(Axis::Z, 0, 1));
    assert_eq!(moves[9], Move(Axis::X, 1, 0));
    assert_eq!(moves[44], Move(Axis::Z, 3, 3));
    assert_eq!(
        Turn::all(),
        vec![
            Turn::L, Turn::L2, Turn::L3, Turn::R, Turn::R2, Turn::R3, Turn::U, Turn::U2, Turn::U3,
            Turn::D, Turn::D2, Turn::D3, Turn::F, Turn::F2, Turn::F3, Turn::B, Turn::B2, Turn::B3
        ]
    );
    assert_eq!(
        QuarterTurn::all(),
        vec![
            QuarterTurn::L, QuarterTurn::L3, QuarterTurn::R, QuarterTurn::R3, QuarterTurn::U,
            QuarterTurn::U3, QuarterTurn::D, QuarterTurn::D3, QuarterTurn::F, QuarterTurn::F3,
            QuarterTurn::B, QuarterTurn::B3
        ]
    );
    let about_y = Move::axis_moves(Axis::Y);
    assert_eq!(about_y[0], Move(Axis::Y, 0, 1));
    assert_eq!(about_y[3], Move(Axis::Y, 1, 0));
    assert_eq!(about_y[14], Move(Axis::Y, 3, 3));
}

#[test]
fn turns_stand_for_moves() {
    assert_eq!(Move::from(Turn::L), Move(Axis::X, 1, 0));
    assert_eq!(Move::from(Turn::R), Move(Axis::X, 0, 3));
    assert_eq!(Move::from(Turn::R3), Move(Axis::X, 0, 1));
    assert_eq!(Move::from(Turn::U2), Move(Axis::Z, 0, 2));
    assert_eq!(Move::from(QuarterTurn::F3), Move(Axis::Y, 3, 0));
    assert_eq!(Turn::B.to_move(), Move(Axis::Y, 0, 3));
    let into: Move = Turn::D.into();
    assert_eq!(into, Move(Axis::Z, 1, 0));
    // the mapping tells the turns apart
    let turns = Turn::all();
    for a in &turns {
        for b in &turns {
            assert_eq!(a.to_move() == b.to_move(), a == b);
        }
    }
}

#[test]
fn inverses_of_turns() {
    assert_eq!(Turn::L.inverse(), Turn::L3);
    assert_eq!(Turn::L3.inverse(), Turn::L);
    assert_eq!(Turn::U2.inverse(), Turn::U2);
    assert_eq!(QuarterTurn::B.inverse(), QuarterTurn::B3);
    for t in Turn::all() {
        assert_eq!(t.inverse().to_move(), Move::inverse(&t.to_move()));
        let cube: Cube<Position> = Cube::default().make_move(Turn::F.to_move());
        assert_eq!(cube.clone().make_move(t.to_move()).make_move(t.inverse().to_move()), cube);
    }
    for q in QuarterTurn::all() {
        assert_eq!(q.inverse().to_move(), Move::inverse(&q.to_move()));
    }
}

#[test]
fn moves_are_spelled_in_turns() {
    assert_eq!(Turn::from_move(Move(Axis::X, 0, 1)), vec![Turn::R3]);
    assert_eq!(Turn::from_move(Move(Axis::X, 1, 1)), vec![Turn::L, Turn::R3]);
    assert_eq!(Turn::from_move(Move(Axis::Y, 2, 3)), vec![Turn::F2, Turn::B]);
    assert_eq!(Turn::from_move(Move(Axis::Z, 3, 0)), vec![Turn::D3]);
    assert_eq!(Turn::from_move(Move(Axis::Z, 0, 0)), vec![]);
    assert_eq!(Turn::from_move(Move(Axis::Z, 4, 5)), vec![Turn::U3]);
    assert_eq!(QuarterTurn::from_move(Move(Axis::X, 0, 2)), vec![QuarterTurn::R, QuarterTurn::R]);
    assert_eq!(
        QuarterTurn::from_move(Move(Axis::X, 2, 2)),
        vec![QuarterTurn::L, QuarterTurn::L, QuarterTurn::R, QuarterTurn::R]
    );
    assert_eq!(
        QuarterTurn::from_move(Move(Axis::Z, 3, 1)),
        vec![QuarterTurn::D3, QuarterTurn::U3]
    );
    assert_eq!(QuarterTurn::from_move(Move(Axis::Y, 0, 0)), vec![]);
    assert_eq!(Move::from_move(Move(Axis::Y, 1, 0)), vec![Move(Axis::Y, 1, 0)]);
    // a spelling reaches what the move reaches
    for m in Move::all() {
        let by_move: Cube<Position> = Cube::default().make_move(m);
        let mut by_turns: Cube<Position> = Cube::default();
        for t in Turn::from_move(m) {
            by_turns = by_turns.make_move(t.to_move());
        }
        assert_eq!(by_turns, by_move);
        let mut by_quarters: Cube<Position> = Cube::default();
        for q in QuarterTurn::from_move(m) {
            by_quarters = by_quarters.make_move(q.to_move());
        }
        assert_eq!(by_quarters, by_move);
    }
}

#[test]
fn moves_are_read_from_text() {
    assert_eq!(Move::from_str("X01"), Ok(Move(Axis::X, 0, 1)));
    assert_eq!(Move::parse(b"Z33"), Ok(Move(Axis::Z, 3, 3)));
    assert_eq!(Move::parse(b"Y00"), Ok(Move(Axis::Y, 0, 0)));
    assert_eq!(Move::parse(b"X0"), Err(ErrorKind::InvalidEncoding));
    assert_eq!(Move::parse(b"X012"), Err(ErrorKind::InvalidEncoding));
    assert_eq!(Move::parse(b""), Err(ErrorKind::InvalidEncoding));
    assert_eq!(Move::parse(b"W01"), Err(ErrorKind::InvalidEncoding));
    assert_eq!(Move::parse(b"x01"), Err(ErrorKind::InvalidEncoding));
    assert_eq!(Move::parse(b"X41"), Err(ErrorKind::InvalidEncoding));
    assert_eq!(Move::parse(b"X0/"), Err(ErrorKind::InvalidEncoding));
    assert_eq!(Move::from_str("Y1a"), Err(ErrorKind::InvalidEncoding));
    for m in Move::all() {
        assert_eq!(Move::parse(&m.to_text()), Ok(m));
        assert_eq!(Move::from_str(&m.to_string()), Ok(m));
    }
}

#[test]
fn actions_as_text() {
    assert_eq!(Move(Axis::X, 1, 3).to_string(), "X13");
    assert_eq!(Move(Axis::Z, 5, 0).to_string(), "Z10");
    assert_eq!(Move(Axis::Y, 2, 0).to_text(), b"Y20".to_vec());
    assert_eq!(Turn::L.to_string(), "L");
    assert_eq!(Turn::L2.to_string(), "L2");
    assert_eq!(Turn::L3.to_string(), "L'");
    assert_eq!(Turn::U3.name_of(), "U'");
    assert_eq!(QuarterTurn::B3.to_string(), "B'");
    assert_eq!(QuarterTurn::F.name_of(), "F");
    assert_eq!(digit_name(6), "2");
}
