use rubiks::action::Move;
use rubiks::cube::{Cube, Position};
use rubiks::cubelet::Axis;
use rubiks::cubix::{move_of_key, App, Key, Tab};

#[test]
fn keys_turn_faces() {
    assert_eq!(move_of_key('q'), Some(Move(Axis::Y, 3, 0)));
    assert_eq!(move_of_key('Q'), Some(Move(Axis::Y, 0, 3)));
    assert_eq!(move_of_key('e'), Some(Move(Axis::Y, 1, 0)));
    assert_eq!(move_of_key('E'), Some(Move(Axis::Y, 0, 1)));
    assert_eq!(move_of_key('w'), Some(Move(Axis::X, 3, 0)));
    assert_eq!(move_of_key('W'), Some(Move(Axis::X, 0, 3)));
    assert_eq!(move_of_key('s'), Some(Move(Axis::X, 1, 0)));
    assert_eq!(move_of_key('S'), Some(Move(Axis::X, 0, 1)));
    assert_eq!(move_of_key('a'), Some(Move(Axis::Z, 3, 0)));
    assert_eq!(move_of_key('A'), Some(Move(Axis::Z, 0, 3)));
    assert_eq!(move_of_key('d'), Some(Move(Axis::Z, 1, 0)));
    assert_eq!(move_of_key('D'), Some(Move(Axis::Z, 0, 1)));
    assert_eq!(move_of_key('x'), None);
    assert_eq!(move_of_key('u'), None);
}

#[test]
fn a_move_key_makes_its_move_and_reduces_the_word() {
    let mut app = App::new();
    assert!(!app.handle_key(Key::Char('s')));
    assert!(!app.handle_key(Key::Char('s')));
    assert_eq!(app.active().to_string(), "(X20)");
    assert_eq!(*app.active().cube(), Cube::<Position>::default().make_move(Move(Axis::X, 2, 0)));
    app.handle_key(Key::Char('d'));
    assert_eq!(app.active().to_string(), "(X20 Z10)");
    app.handle_key(Key::Char('t'));
    assert_eq!(app.active().to_string(), "(L2 D)");
    app.handle_key(Key::Char('T'));
    assert_eq!(app.active().to_string(), "(L L D)");
    app.handle_key(Key::Char('m'));
    assert_eq!(app.active().to_string(), "(X20 Z10)");
    app.handle_key(Key::Char('u'));
    assert_eq!(app.active().to_string(), "(X20)");
    assert_eq!(*app.active().cube(), Cube::<Position>::default().make_move(Move(Axis::X, 2, 0)));
    app.handle_key(Key::Char('u'));
    app.handle_key(Key::Char('u'));
    assert_eq!(app.active().to_string(), "()");
    assert_eq!(*app.active().cube(), Cube::<Position>::default());
    app.handle_key(Key::Char('q'));
    app.handle_key(Key::Char('R'));
    assert_eq!(app.active().to_string(), "()");
    app.handle_key(Key::Other);
    app.handle_key(Key::Char('?'));
    assert_eq!(app.active().to_string(), "()");
}

#[test]
fn tabs_are_opened_closed_and_gone_round() {
    let mut app = App::new();
    app.handle_key(Key::Char('s'));
    app.handle_key(Key::Char('N'));
    assert_eq!(app.tabs.len(), 2);
    assert_eq!(app.active_tab, 1);
    assert_eq!(app.active().to_string(), "()");
    app.handle_key(Key::Char('d'));
    app.handle_key(Key::Right);
    assert_eq!(app.active_tab, 0);
    assert_eq!(app.active().to_string(), "(X10)");
    app.handle_key(Key::Left);
    assert_eq!(app.active_tab, 1);
    app.handle_key(Key::Left);
    assert_eq!(app.active_tab, 0);
    app.handle_key(Key::Right);
    assert_eq!(app.active_tab, 1);
    app.handle_key(Key::Char('K'));
    assert_eq!(app.tabs.len(), 1);
    assert_eq!(app.active_tab, 0);
    assert_eq!(app.active().to_string(), "(X10)");
    app.handle_key(Key::Char('K'));
    assert_eq!(app.tabs.len(), 1);
    assert_eq!(app.active().to_string(), "()");
    assert!(app.handle_key(Key::Esc));
}

#[test]
fn a_tab_by_itself() {
    let mut tab = Tab::new();
    tab.make_move(Move(Axis::X, 1, 0));
    tab.make_move(Move(Axis::X, 1, 0));
    assert_eq!(tab.to_string(), "(X10 X10)");
    tab.normalize();
    assert_eq!(tab.to_string(), "(X20)");
    assert_eq!(tab.pop(), Some(Move(Axis::X, 2, 0)));
    assert_eq!(tab.pop(), None);
    assert_eq!(*tab.cube(), Cube::<Position>::default());
}
