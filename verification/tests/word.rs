use rubiks::action::{Action, Move, QuarterTurn, Turn};
use rubiks::cube::{Cube, Position};
use rubiks::cubelet::Axis;
use rubiks::error::ErrorKind;
use rubiks::word::Word;

#[test]
fn word_test_word_stuff() {
    let mut word = Word::new();
    word.make_move(Move(Axis::X, 0, 1));
    word.make_move(Move(Axis::X, 0, 3));
    word.make_move(Move(Axis::Y, 0, 1));
    word.make_move(Move(Axis::Y, 0, 1));
    word.make_move(Move(Axis::Z, 0, 1));
    word.make_move(Move(Axis::Z, 0, 1));
    word.make_move(Move(Axis::Z, 0, 1));
    word.make_move(Move(Axis::Z, 0, 1));
    word.make_move(Move(Axis::X, 0, 3));
    word.make_move(Move(Axis::X, 1, 3));
    word.make_move(Move(Axis::X, 1, 3));
    assert_eq!(word.actions.len(), 11);

    let Word { cube, actions, .. } = word.normal_form();
    let test_cube = Cube::default()
        .make_move(Move(Axis::Y, 0, 2))
        .make_move(Move(Axis::X, 2, 1));
    let test_actions = vec![Move(Axis::Y, 0, 2), Move(Axis::X, 2, 1)];

    assert_eq!(cube, test_cube);
    assert_eq!(actions, test_actions);
}

#[test]
fn three_quarter_turns_reduce_to_one_the_other_way() {
    let word = Word::from_actions(&[Turn::R, Turn::R, Turn::R, Turn::U]);
    assert_eq!(word.as_actions(), vec![Turn::R, Turn::R, Turn::R, Turn::U]);
    let end: Cube<Position> = word.cube().clone();
    let normal = word.normal_form();
    assert_eq!(normal.as_actions(), vec![Turn::R3, Turn::U]);
    assert_eq!(normal.cube, end);
    let again = Word::from_actions(&[Turn::R3, Turn::U]);
    assert_eq!(again.cube, end);
}

#[test]
fn normal_form_is_one_pass_only() {
    // the pair in the middle cancels, and what was put out before is not
    // looked at again
    let word = Word::from_actions(&[
        Move(Axis::X, 1, 0),
        Move(Axis::Y, 1, 0),
        Move(Axis::Y, 3, 0),
        Move(Axis::X, 1, 0),
    ]);
    let end = word.cube.clone();
    let normal = word.normal_form();
    assert_eq!(normal.actions, vec![Move(Axis::X, 1, 0), Move(Axis::X, 1, 0)]);
    assert_eq!(normal.cube, end);
    let twice = normal.normal_form();
    assert_eq!(twice.actions, vec![Move(Axis::X, 2, 0)]);
    assert_eq!(twice.cube, end);
}

#[test]
fn normal_form_of_short_words() {
    let empty: Word<Turn> = Word::new();
    assert!(empty.normal_form().actions.is_empty());
    let one = Word::from_actions(&[Turn::F2]);
    assert_eq!(one.normal_form().as_actions(), vec![Turn::F2]);
    let gone = Word::from_actions(&[Turn::F2, Turn::F2]);
    let normal = gone.normal_form();
    assert!(normal.actions.is_empty());
    assert_eq!(normal.cube, Cube::default());
}

#[test]
fn words_keep_cube_and_moves_together() {
    let mut word: Word<QuarterTurn> = Word::default();
    assert_eq!(word.cube, Cube::default());
    word.make_move(QuarterTurn::L);
    word.extend(&[QuarterTurn::U3, QuarterTurn::L]);
    assert_eq!(
        word.actions,
        vec![Move(Axis::X, 1, 0), Move(Axis::Z, 0, 1), Move(Axis::X, 1, 0)]
    );
    let by_hand = Cube::default()
        .make_move(QuarterTurn::L.to_move())
        .make_move(QuarterTurn::U3.to_move())
        .make_move(QuarterTurn::L.to_move());
    assert_eq!(*word.cube(), by_hand);
    let copy = word.clone();
    assert_eq!(copy.actions, word.actions);
    assert_eq!(copy.cube, word.cube);
}

#[test]
fn a_word_is_spelled_in_its_vocabulary() {
    let moves = vec![Move(Axis::X, 2, 1), Move(Axis::Z, 0, 2)];
    let as_turns: Word<Turn> = Word::from_parts_unchecked(Cube::default(), moves.clone());
    assert_eq!(as_turns.as_actions(), vec![Turn::L2, Turn::R3, Turn::U2]);
    let as_quarters: Word<QuarterTurn> = Word::from_parts_unchecked(Cube::default(), moves.clone());
    assert_eq!(
        as_quarters.as_actions(),
        vec![
            QuarterTurn::L,
            QuarterTurn::L,
            QuarterTurn::R3,
            QuarterTurn::U,
            QuarterTurn::U
        ]
    );
    let as_moves: Word<Move> = Word::from_parts_unchecked(Cube::default(), moves.clone());
    assert_eq!(as_moves.as_actions(), moves);
}

#[test]
fn test_word_stuff() {
    let mut word = Word::new();
    word.make_move(Move(Axis::X, 0, 1));
    word.make_move(Move(Axis::X, 0, 3));
    word.make_move(Move(Axis::Y, 0, 1));
    word.make_move(Move(Axis::Y, 0, 1));
    word.make_move(Move(Axis::Z, 0, 1));
    word.make_move(Move(Axis::Z, 0, 1));
    word.make_move(Move(Axis::Z, 0, 1));
    word.make_move(Move(Axis::Z, 0, 1));
    word.make_move(Move(Axis::X, 0, 3));
    word.make_move(Move(Axis::X, 1, 3));
    word.make_move(Move(Axis::X, 1, 3));

    let Word { cube, actions, .. } = word.normal_form();
    let test_cube = Cube::default()
        .make_move(Move(Axis::Y, 0, 2))
        .make_move(Move(Axis::X, 2, 1));
    let test_actions = vec![Move(Axis::Y, 0, 2), Move(Axis::X, 2, 1)];

    assert_eq!(cube, test_cube);
    assert_eq!(actions, test_actions);
}

#[test]
fn a_word_is_packed_and_read_back() {
    let word = Word::from_actions(&[Turn::R, Turn::U2, Turn::F3, Turn::L]);
    let bytes = word.to_packed().unwrap();
    // four moves of six bits in three bytes
    assert_eq!(bytes.len(), 3);
    let back: Word<Turn> = Word::from_packed(&bytes);
    assert_eq!(back.actions, word.actions);
    assert_eq!(back.cube, word.cube);

    let five = Word::from_actions(&[Turn::R, Turn::U2, Turn::F3, Turn::L, Turn::D]);
    let bytes = five.to_packed().unwrap();
    // thirty bits in four bytes, and two bits over
    assert_eq!(bytes.len(), 4);
    let back: Word<Turn> = Word::from_packed(&bytes);
    assert_eq!(back.actions, five.actions);
    assert_eq!(back.cube, five.cube);

    let empty: Word<Turn> = Word::new();
    assert_eq!(empty.to_packed(), Ok(vec![]));
    let back: Word<Turn> = Word::from_packed(&[]);
    assert!(back.actions.is_empty());
}

#[test]
fn a_word_with_a_move_that_has_no_code_is_not_packed() {
    let idle: Word<Move> = Word::from_actions(&[Move(Axis::X, 1, 0), Move(Axis::Y, 0, 0)]);
    assert_eq!(idle.to_packed(), Err(ErrorKind::InvalidEncoding));
    let wide: Word<Move> = Word::from_actions(&[Move(Axis::X, 5, 0)]);
    assert_eq!(wide.to_packed(), Err(ErrorKind::InvalidEncoding));
}

#[test]
fn a_word_of_moves() {
    let moves = vec![Move(Axis::X, 1, 0), Move(Axis::Y, 2, 1)];
    let word: Word<Turn> = Word::from_moves(moves.clone());
    assert_eq!(word.actions, moves);
    assert_eq!(
        word.cube,
        Cube::default().make_move(Move(Axis::X, 1, 0)).make_move(Move(Axis::Y, 2, 1))
    );
}
