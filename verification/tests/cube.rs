use rand::{thread_rng, Rng};
use rubiks::action::{Action, Move};
use rubiks::cube::{coords, index, shift_backward, shift_forward, Cube, Id, Position};
use rubiks::cubelet::{Axis, Rotation};
use rubiks::error::ErrorKind;

#[test]
fn cube_test_move_back_and_forth() {
    let all = Move::all();
    let mut cube: Cube<Position> = Cube::default();
    let cube = &mut cube;
    let mut thread = thread_rng();
    let moves: Vec<usize> = (0..20).map(|_| thread.gen_range(0..45)).collect();
    moves.into_iter().for_each(|ind| {
        *cube = cube.clone().make_move(all[ind]);
    });

    for m in all {
        let inverse = m.inverse();
        assert_eq!(cube.clone().make_move(m).make_move(inverse), *cube);
    }
}

#[test]
fn rubiks_test_move_back_and_forth() {
    let all = Move::all();
    let mut cube: Cube<Position> = Cube::default();
    let mut thread = thread_rng();
    for _ in 0..20 {
        cube = cube.make_move(all[thread.gen_range(0..45)]);
    }
    for m in Move::all() {
        let there = cube.clone().make_move(m);
        assert_eq!(there.make_move(Move::inverse(&m)), cube);
    }
}

#[test]
fn slots_and_places_correspond() {
    for slot in 0..20 {
        assert_eq!(index(coords(slot)), slot);
    }
    assert_eq!(coords(0), [0, 0, 0]);
    assert_eq!(coords(4), [0, 1, 2]);
    assert_eq!(coords(11), [1, 2, 2]);
    assert_eq!(coords(19), [2, 2, 2]);
    assert_eq!(index([2, 1, 0]), 15);
}

#[test]
fn a_quarter_turn_moves_the_eight_cubelets_of_its_face() {
    let cube: Cube<Position> = Cube::default();
    let turned = cube.make_move(Move(Axis::X, 1, 0));
    for slot in 0..20 {
        let expected = if coords(slot)[0] == 0 { Rotation::X } else { Rotation::Neutral };
        assert_eq!(turned.cubelets[slot], expected);
    }
    // a second turn, of the upper layer about Z, shows where cubelets go:
    // the place (x, y, 2) takes the cubelet of the place (y, 2 - x, 2)
    let twice = turned.make_move(Move(Axis::Z, 0, 1));
    assert_eq!(twice.cubelets[index([2, 0, 2])], Rotation::X.compose(Rotation::Z));
    assert_eq!(twice.cubelets[index([0, 0, 2])], Rotation::X.compose(Rotation::Z));
    assert_eq!(twice.cubelets[index([2, 2, 2])], Rotation::Z);
    assert_eq!(twice.cubelets[index([0, 2, 2])], Rotation::Z);
    assert_eq!(twice.cubelets[index([1, 0, 2])], Rotation::X.compose(Rotation::Z));
    assert_eq!(twice.cubelets[index([0, 1, 2])], Rotation::Z);
    assert_eq!(twice.cubelets[index([0, 0, 0])], Rotation::X);
    assert_eq!(twice.cubelets[index([2, 0, 0])], Rotation::Neutral);
}

#[test]
fn the_two_faces_of_a_move_may_turn_in_either_order() {
    let start: Cube<Position> = Cube::default()
        .make_move(Move(Axis::Y, 1, 2))
        .make_move(Move(Axis::Z, 3, 1));
    for axis in [Axis::X, Axis::Y, Axis::Z] {
        for near in 0..4u8 {
            for far in 0..4u8 {
                let together = start.clone().make_move(Move(axis, near, far));
                let near_first =
                    start.clone().make_move(Move(axis, near, 0)).make_move(Move(axis, 0, far));
                let far_first =
                    start.clone().make_move(Move(axis, 0, far)).make_move(Move(axis, near, 0));
                assert_eq!(together, near_first);
                assert_eq!(together, far_first);
            }
        }
    }
}

#[test]
fn no_turn_is_no_change_and_counts_are_modulo_four() {
    let start: Cube<Position> = Cube::default().make_move(Move(Axis::Y, 1, 2));
    assert_eq!(start.clone().make_move(Move(Axis::X, 0, 0)), start);
    assert_eq!(start.clone().make_move(Move(Axis::Z, 4, 8)), start);
    assert_eq!(
        start.clone().make_move(Move(Axis::Z, 5, 2)),
        start.clone().make_move(Move(Axis::Z, 1, 6))
    );
    let four = start
        .clone()
        .make_move(Move(Axis::X, 1, 0))
        .make_move(Move(Axis::X, 1, 0))
        .make_move(Move(Axis::X, 1, 0))
        .make_move(Move(Axis::X, 1, 0));
    assert_eq!(four, start);
}

#[test]
fn moves_about_one_axis_add_up() {
    let start: Cube<Position> = Cube::default().make_move(Move(Axis::Z, 1, 3));
    let (merged, rest) = Move::reduce(Move(Axis::X, 1, 3), Move(Axis::X, 2, 3));
    assert_eq!(merged, Some(Move(Axis::X, 3, 2)));
    assert_eq!(rest, None);
    assert_eq!(
        start.clone().make_move(Move(Axis::X, 1, 3)).make_move(Move(Axis::X, 2, 3)),
        start.make_move(Move(Axis::X, 3, 2))
    );
}

#[test]
fn parity_counts_axis_turns() {
    let cube: Cube<Position> = Cube::default();
    assert_eq!(cube.parity(), 0);
    assert_eq!(cube.clone().make_move(Move(Axis::X, 1, 0)).parity(), 8);
    let two = cube.make_move(Move(Axis::X, 1, 0)).make_move(Move(Axis::Y, 1, 0));
    // three cubelets lie on both faces and take two turns each
    assert_eq!(two.parity(), 5 + 5 + 3 * 2);
}

#[test]
fn renumbering_by_home_orientations_changes_nothing() {
    let cube: Cube<Position> = Cube::default().make_move(Move(Axis::X, 1, 2));
    let still = [Rotation::Neutral; 20];
    let by_id: Cube<Id> = cube.by_id(&still);
    assert_eq!(by_id.cubelets, cube.cubelets);
    assert_eq!(by_id.by_position(&still), cube);
    assert_eq!(shift_forward(&cube.cubelets, &still), cube.cubelets);
    assert_eq!(shift_backward(&cube.cubelets, &still), cube.cubelets);
}

#[test]
fn renumbering_follows_the_turns_of_the_grid() {
    let mut cubelets = [Rotation::Neutral; 20];
    for (slot, rot) in Rotation::variants().iter().take(20).enumerate() {
        cubelets[slot] = *rot;
    }
    let mut by = [Rotation::Neutral; 20];
    by[0] = Rotation::X;
    by[19] = Rotation::Z3;
    let forward = shift_forward(&cubelets, &by);
    // a quarter turn of the grid about X carries (0, 0, 0) to (0, 0, 2)
    assert_eq!(forward[0], cubelets[index([0, 0, 2])]);
    // three quarter turns about Z carry (2, 2, 2) to (0, 2, 2)
    assert_eq!(forward[19], cubelets[index([0, 2, 2])]);
    assert_eq!(forward[5], cubelets[5]);
    let backward = shift_backward(&cubelets, &by);
    // the inverse of X is X3, which carries (0, 0, 0) to (0, 2, 0)
    assert_eq!(backward[0], cubelets[index([0, 2, 0])]);
    assert_eq!(backward[19], cubelets[index([2, 0, 2])]);
}

#[test]
fn a_cube_is_spelled_in_twenty_letters() {
    let solved: Cube<Position> = Cube::default();
    assert_eq!(solved.to_text(), b"AAAAAAAAAAAAAAAAAAAA".to_vec());
    let turned = solved.make_move(Move(Axis::X, 1, 0));
    assert_eq!(turned.to_text(), b"BBBBBBBBAAAAAAAAAAAA".to_vec());
    let read: Cube<Position> = Cube::parse(b"BBBBBBBBAAAAAAAAAAAA").unwrap();
    assert_eq!(read, turned);
    assert_eq!(
        Cube::<Position>::parse(b"BBBBBBBBAAAAAAAAAAA"),
        Err(ErrorKind::InvalidEncoding)
    );
    assert_eq!(
        Cube::<Position>::parse(b"BBBBBBBBAAAAAAAAAAAY"),
        Err(ErrorKind::InvalidEncoding)
    );
    assert_eq!(
        Cube::<Position>::parse(b"BBBBBBBBAAAAAAAAAAA@"),
        Err(ErrorKind::InvalidEncoding)
    );
    assert!(Cube::<Position>::parse(b"XXXXXXXXXXXXXXXXXXXX").is_ok());
}

#[test]
fn a_cube_is_packed_in_thirteen_bytes() {
    let solved: Cube<Position> = Cube::default();
    assert_eq!(solved.to_packed(), vec![0; 13]);
    let turned = solved.make_move(Move(Axis::X, 1, 0)).make_move(Move(Axis::Z, 0, 3));
    let bytes = turned.to_packed();
    assert_eq!(bytes.len(), 13);
    assert_eq!(Cube::<Position>::from_packed(&bytes), Ok(turned.clone()));
    // the first orientation stands in the five highest bits
    assert_eq!(bytes[0] >> 3, turned.cubelets[0].into_usize() as u8);

    assert_eq!(Cube::<Position>::from_packed(&bytes[..12]), Err(ErrorKind::InvalidEncoding));
    assert_eq!(Cube::<Position>::from_packed(&[0; 14]), Err(ErrorKind::InvalidEncoding));
    // 24 is the code of no orientation
    let mut wrong = bytes.clone();
    wrong[0] = 24 << 3;
    assert_eq!(Cube::<Position>::from_packed(&wrong), Err(ErrorKind::InvalidEncoding));
    // the four bits that are left over are zeros
    let mut loose = bytes.clone();
    loose[12] |= 1;
    assert_eq!(Cube::<Position>::from_packed(&loose), Err(ErrorKind::InvalidEncoding));
}

#[test]
fn a_cube_is_gone_through_slot_by_slot() {
    let cube: Cube<Position> = Cube::default().make_move(Move(Axis::X, 1, 0));
    let mut it = cube.iter();
    let mut seen = Vec::new();
    while let Some(rot) = it.next() {
        seen.push(rot);
    }
    assert_eq!(seen, cube.cubelets.to_vec());
    assert_eq!(it.next(), None);
}
