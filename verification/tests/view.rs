use rubiks::action::Turn;
use rubiks::action::{Action, Move};
use rubiks::cube::{Cube, Position};
use rubiks::cubelet::Axis;
use rubiks::view::{pad_right_to, DisplayCube};
use rubiks::word::Word;

#[test]
fn padding_fills_up_to_a_width() {
    assert_eq!(pad_right_to("X2", 8), "X2      ");
    assert_eq!(pad_right_to("Neutral", 8), "Neutral ");
    assert_eq!(pad_right_to("", 3), "   ");
    assert_eq!(pad_right_to("X3Y3", 4), "X3Y3");
    assert_eq!(pad_right_to("too wide", 4), "too wide");
    assert_eq!(pad_right_to("a", 0), "a");
}

#[test]
fn the_solved_cube_as_a_grid() {
    let cube: Cube<Position> = Cube::default();
    let text = DisplayCube(cube).to_string();
    let n = "Neutral ";
    let top = n.repeat(8);
    let mid = format!("{n}O       {n}G       {n}R       {n}B       ");
    assert_eq!(text, format!("{top}\n{mid}\n{top}\n"));
}

#[test]
fn a_turned_cube_as_a_grid() {
    let cube: Cube<Position> = Cube::default().make_move(Move(Axis::X, 1, 0));
    let text = DisplayCube(cube).to_string();
    let lines: Vec<&str> = text.lines().collect();
    assert_eq!(lines.len(), 3);
    // the left face comes first in every line, and turns about X
    assert_eq!(lines[0], "X       X       X       Neutral Neutral Neutral Neutral Neutral ");
    assert_eq!(lines[1], "X       O       X       G       Neutral R       Neutral B       ");
    assert_eq!(lines[2], "X       X       X       Neutral Neutral Neutral Neutral Neutral ");
}

#[test]
fn a_word_as_text() {
    let empty: Word<Turn> = Word::new();
    assert_eq!(empty.to_string(), "()");
    let one = Word::from_actions(&[Turn::R3]);
    assert_eq!(one.to_string(), "(R')");
    let word = Word::from_actions(&[Turn::R, Turn::U2, Turn::F3]);
    assert_eq!(word.to_string(), "(R U2 F')");
    let moves = Word::from_actions(&[Move(Axis::X, 1, 1), Move(Axis::Z, 0, 3)]);
    assert_eq!(moves.to_string(), "(X11 Z03)");
    assert_eq!(Turn::D3.to_string(), "D'");
}
