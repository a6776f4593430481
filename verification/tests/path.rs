use rubiks::action::Move;
use rubiks::cube::{Cube, Position};
use rubiks::cubelet::Axis;
use rubiks::path::CubePath;

#[test]
fn a_path_keeps_every_cube_on_the_way() {
    let mut path = CubePath::default();
    assert!(path.moves.is_empty());
    assert_eq!(path.cubes, vec![Cube::default()]);
    path.make_move(Move(Axis::X, 1, 0));
    path.make_move(Move(Axis::Y, 0, 2));
    assert_eq!(path.moves, vec![Move(Axis::X, 1, 0), Move(Axis::Y, 0, 2)]);
    let first: Cube<Position> = Cube::default().make_move(Move(Axis::X, 1, 0));
    let second = first.clone().make_move(Move(Axis::Y, 0, 2));
    assert_eq!(path.cubes, vec![Cube::default(), first, second]);
}

#[test]
fn a_path_stays_reduced() {
    let mut path = CubePath::default();
    path.make_move(Move(Axis::X, 1, 0));
    path.make_move(Move(Axis::X, 1, 2));
    assert_eq!(path.moves, vec![Move(Axis::X, 2, 2)]);
    assert_eq!(path.cubes.len(), 2);
    assert_eq!(path.cubes[1], Cube::default().make_move(Move(Axis::X, 2, 2)));
    path.make_move(Move(Axis::Z, 3, 0));
    path.make_move(Move(Axis::Z, 1, 0));
    assert_eq!(path.moves, vec![Move(Axis::X, 2, 2)]);
    assert_eq!(path.cubes.len(), 2);
    path.make_move(Move(Axis::X, 2, 2));
    assert!(path.moves.is_empty());
    assert_eq!(path.cubes, vec![Cube::default()]);
}
