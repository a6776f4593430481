//! The viewer: tabs, each with a word and the cube that it reaches, and
//! what every key does to them. Drawing the tabs and reading the keyboard
//! is left to the caller.

use vstd::prelude::*;

use crate::action::{Move, QuarterTurn, Turn};
use crate::cube::{moved, solved, Cube, Position};
use crate::cubelet::{Axis, Rotation};
use crate::word::{joined, normalized, spelled_out, Word};

verus! {

/// A key, as far as the viewer tells keys apart.
#[derive(Clone, Copy, Debug, PartialEq, Eq, Structural)]
pub enum Key {
    Esc,
    Left,
    Right,
    Char(char),
    Other,
}

/// The vocabulary in which a tab spells its word.
#[derive(Clone, Copy, Debug, PartialEq, Eq, Structural)]
pub enum Spelling {
    Moves,
    Turns,
    QuarterTurns,
}

/// A tab: a word in one of the three vocabularies.
pub enum Tab {
    Moves(Word<Move>),
    Turns(Word<Turn>),
    QuarterTurns(Word<QuarterTurn>),
}

/// What a tab holds.
pub struct TabModel {
    pub spelling: Spelling,
    pub moves: Seq<Move>,
    pub state: Seq<Rotation>,
}

/// What the viewer holds.
pub struct AppModel {
    pub tabs: Seq<TabModel>,
    pub active: int,
}

/// The tabs of the viewer, and the one that is shown.
pub struct App {
    pub tabs: Vec<Tab>,
    pub active_tab: usize,
}

/// The move that a letter key makes: `q`, `e` turn the front face and
/// `Q`, `E` the back face; `w`, `s` the left and `W`, `S` the right;
/// `a`, `d` the lower and `A`, `D` the upper.
pub open spec fn key_move(c: char) -> Option<Move> {
    if c == 'q' {
        Some(Move(Axis::Y, 3, 0))
    } else if c == 'Q' {
        Some(Move(Axis::Y, 0, 3))
    } else if c == 'e' {
        Some(Move(Axis::Y, 1, 0))
    } else if c == 'E' {
        Some(Move(Axis::Y, 0, 1))
    } else if c == 'w' {
        Some(Move(Axis::X, 3, 0))
    } else if c == 'W' {
        Some(Move(Axis::X, 0, 3))
    } else if c == 's' {
        Some(Move(Axis::X, 1, 0))
    } else if c == 'S' {
        Some(Move(Axis::X, 0, 1))
    } else if c == 'a' {
        Some(Move(Axis::Z, 3, 0))
    } else if c == 'A' {
        Some(Move(Axis::Z, 0, 3))
    } else if c == 'd' {
        Some(Move(Axis::Z, 1, 0))
    } else if c == 'D' {
        Some(Move(Axis::Z, 0, 1))
    } else {
        None
    }
}

/// The word of a tab as text: its moves, spelled in its vocabulary, in
/// round brackets.
pub open spec fn tab_shown(tab: TabModel) -> Seq<char> {
    match tab.spelling {
        Spelling::Moves => "("@ + joined(spelled_out::<Move>(tab.moves)) + ")"@,
        Spelling::Turns => "("@ + joined(spelled_out::<Turn>(tab.moves)) + ")"@,
        Spelling::QuarterTurns => "("@ + joined(spelled_out::<QuarterTurn>(tab.moves)) + ")"@,
    }
}

/// An empty tab of moves.
pub open spec fn fresh_tab() -> TabModel {
    TabModel { spelling: Spelling::Moves, moves: Seq::empty(), state: solved() }
}

/// What a key does to a tab: a move key makes its move and reduces the
/// word, `u` takes the last move back, `R` empties the tab, and `m`, `t`
/// and `T` change the vocabulary.
pub open spec fn tab_after(tab: TabModel, c: char) -> TabModel {
    if key_move(c) is Some {
        TabModel {
            spelling: tab.spelling,
            moves: normalized(tab.moves.push(key_move(c)->Some_0)),
            state: moved(tab.state, key_move(c)->Some_0),
        }
    } else if c == 'u' {
        if tab.moves.len() > 0 {
            TabModel {
                spelling: tab.spelling,
                moves: tab.moves.drop_last(),
                state: moved(tab.state, tab.moves.last().inverted()),
            }
        } else {
            tab
        }
    } else if c == 'R' {
        fresh_tab()
    } else if c == 'm' {
        TabModel { spelling: Spelling::Moves, moves: tab.moves, state: tab.state }
    } else if c == 't' {
        TabModel { spelling: Spelling::Turns, moves: tab.moves, state: tab.state }
    } else if c == 'T' {
        TabModel { spelling: Spelling::QuarterTurns, moves: tab.moves, state: tab.state }
    } else {
        tab
    }
}

/// What a key does to the viewer. `N` opens a tab and shows it; `K`
/// closes the tab that is shown, and where it was the last one opens an
/// empty one; the arrows go round the tabs; any other key is for the tab
/// that is shown.
pub open spec fn after_key(app: AppModel, key: Key) -> AppModel {
    match key {
        Key::Esc => app,
        Key::Other => app,
        Key::Left => AppModel {
            tabs: app.tabs,
            active: if app.active == 0 {
                app.tabs.len() - 1
            } else {
                app.active - 1
            },
        },
        Key::Right => AppModel {
            tabs: app.tabs,
            active: if app.active + 1 >= app.tabs.len() {
                0
            } else {
                app.active + 1
            },
        },
        Key::Char(c) => if c == 'N' {
            AppModel { tabs: app.tabs.push(fresh_tab()), active: app.tabs.len() as int }
        } else if c == 'K' {
            let left = app.tabs.remove(app.active);
            if left.len() == 0 {
                AppModel { tabs: seq![fresh_tab()], active: 0 }
            } else if app.active >= left.len() {
                AppModel { tabs: left, active: left.len() - 1 }
            } else {
                AppModel { tabs: left, active: app.active }
            }
        } else {
            AppModel {
                tabs: app.tabs.update(app.active, tab_after(app.tabs[app.active], c)),
                active: app.active,
            }
        },
    }
}

impl Tab {
    /// What the tab holds.
    pub open spec fn model(&self) -> TabModel {
        match self {
            Tab::Moves(word) => TabModel {
                spelling: Spelling::Moves,
                moves: word.moves(),
                state: word.state(),
            },
            Tab::Turns(word) => TabModel {
                spelling: Spelling::Turns,
                moves: word.moves(),
                state: word.state(),
            },
            Tab::QuarterTurns(word) => TabModel {
                spelling: Spelling::QuarterTurns,
                moves: word.moves(),
                state: word.state(),
            },
        }
    }

    /// An empty tab of moves.
    pub fn new() -> (tab: Tab)
        ensures
            tab.model() == fresh_tab(),
    {
        Tab::Moves(Word::new())
    }

    /// Makes a move: it is put behind the word, and made on the cube.
    pub fn make_move(&mut self, m: Move)
        ensures
            final(self).model() == (TabModel {
                spelling: old(self).model().spelling,
                moves: old(self).model().moves.push(m),
                state: moved(old(self).model().state, m),
            }),
    {
        match self {
            Tab::Moves(word) => word.push_move(m),
            Tab::Turns(word) => word.push_move(m),
            Tab::QuarterTurns(word) => word.push_move(m),
        }
    }

    /// Takes the last move back.
    pub fn pop(&mut self) -> (last: Option<Move>)
        ensures
            final(self).model().spelling == old(self).model().spelling,
            match last {
                Some(m) => old(self).model().moves == final(self).model().moves.push(m)
                    && final(self).model().state == moved(old(self).model().state, m.inverted()),
                None => old(self).model().moves.len() == 0 && final(self).model() == old(
                    self,
                ).model(),
            },
    {
        match self {
            Tab::Moves(word) => word.pop_move(),
            Tab::Turns(word) => word.pop_move(),
            Tab::QuarterTurns(word) => word.pop_move(),
        }
    }

    /// The cube of the tab.
    pub fn cube(&self) -> (cube: &Cube<Position>)
        ensures
            cube@ == self.model().state,
    {
        match self {
            Tab::Moves(word) => word.cube(),
            Tab::Turns(word) => word.cube(),
            Tab::QuarterTurns(word) => word.cube(),
        }
    }

    /// The word of the tab as text, in its vocabulary.
    pub fn to_string(&self) -> (text: String)
        ensures
            text@ == tab_shown(self.model()),
    {
        match self {
            Tab::Moves(word) => word.to_string(),
            Tab::Turns(word) => word.to_string(),
            Tab::QuarterTurns(word) => word.to_string(),
        }
    }

    /// One pass of reduction over the word of the tab.
    pub fn normalize(&mut self)
        ensures
            final(self).model() == (TabModel {
                spelling: old(self).model().spelling,
                moves: normalized(old(self).model().moves),
                state: old(self).model().state,
            }),
    {
        match self {
            Tab::Moves(word) => {
                let reduced = word.clone().normal_form();
                *word = reduced;
            },
            Tab::Turns(word) => {
                let reduced = word.clone().normal_form();
                *word = reduced;
            },
            Tab::QuarterTurns(word) => {
                let reduced = word.clone().normal_form();
                *word = reduced;
            },
        }
    }

    /// The same word in another vocabulary.
    pub fn respell(&self, spelling: Spelling) -> (tab: Tab)
        ensures
            tab.model() == (TabModel {
                spelling,
                moves: self.model().moves,
                state: self.model().state,
            }),
    {
        match spelling {
            Spelling::Moves => Tab::Moves(
                match self {
                    Tab::Moves(word) => word.respell(),
                    Tab::Turns(word) => word.respell(),
                    Tab::QuarterTurns(word) => word.respell(),
                },
            ),
            Spelling::Turns => Tab::Turns(
                match self {
                    Tab::Moves(word) => word.respell(),
                    Tab::Turns(word) => word.respell(),
                    Tab::QuarterTurns(word) => word.respell(),
                },
            ),
            Spelling::QuarterTurns => Tab::QuarterTurns(
                match self {
                    Tab::Moves(word) => word.respell(),
                    Tab::Turns(word) => word.respell(),
                    Tab::QuarterTurns(word) => word.respell(),
                },
            ),
        }
    }

    /// What a key does to the tab.
    pub fn handle_char(&mut self, c: char)
        ensures
            final(self).model() == tab_after(old(self).model(), c),
    {
        match move_of_key(c) {
            Some(m) => {
                self.make_move(m);
                self.normalize();
            },
            None => {
                if c == 'u' {
                    let last = self.pop();
                    proof {
                        if last is Some {
                            assert(self.model().moves =~= old(self).model().moves.drop_last());
                        }
                    }
                } else if c == 'R' {
                    *self = Tab::new();
                } else if c == 'm' {
                    let other = self.respell(Spelling::Moves);
                    *self = other;
                } else if c == 't' {
                    let other = self.respell(Spelling::Turns);
                    *self = other;
                } else if c == 'T' {
                    let other = self.respell(Spelling::QuarterTurns);
                    *self = other;
                }
            },
        }
    }
}

/// The move that a letter key makes, if it makes one.
pub fn move_of_key(c: char) -> (m: Option<Move>)
    ensures
        m == key_move(c),
{
    if c == 'q' {
        Some(Move(Axis::Y, 3, 0))
    } else if c == 'Q' {
        Some(Move(Axis::Y, 0, 3))
    } else if c == 'e' {
        Some(Move(Axis::Y, 1, 0))
    } else if c == 'E' {
        Some(Move(Axis::Y, 0, 1))
    } else if c == 'w' {
        Some(Move(Axis::X, 3, 0))
    } else if c == 'W' {
        Some(Move(Axis::X, 0, 3))
    } else if c == 's' {
        Some(Move(Axis::X, 1, 0))
    } else if c == 'S' {
        Some(Move(Axis::X, 0, 1))
    } else if c == 'a' {
        Some(Move(Axis::Z, 3, 0))
    } else if c == 'A' {
        Some(Move(Axis::Z, 0, 3))
    } else if c == 'd' {
        Some(Move(Axis::Z, 1, 0))
    } else if c == 'D' {
        Some(Move(Axis::Z, 0, 1))
    } else {
        None
    }
}

impl App {
    /// What the viewer holds.
    pub open spec fn model(&self) -> AppModel {
        AppModel {
            tabs: Seq::new(self.tabs@.len(), |i: int| self.tabs@[i].model()),
            active: self.active_tab as int,
        }
    }

    /// Whether there is a tab, and the tab that is shown is one of them.
    pub open spec fn is_well_formed(&self) -> bool {
        self.active_tab < self.tabs@.len()
    }

    /// The viewer with one empty tab.
    pub fn new() -> (app: App)
        ensures
            app.is_well_formed(),
            app.model() == (AppModel { tabs: seq![fresh_tab()], active: 0 }),
    {
        let mut tabs: Vec<Tab> = Vec::new();
        tabs.push(Tab::new());
        let app = App { tabs, active_tab: 0 };
        assert(app.model().tabs =~= seq![fresh_tab()]);
        app
    }

    /// The tab that is shown.
    pub fn active(&self) -> (tab: &Tab)
        requires
            self.is_well_formed(),
        ensures
            tab.model() == self.model().tabs[self.model().active],
    {
        &self.tabs[self.active_tab]
    }

    /// Takes a key, and says whether the viewer is to end: it ends on
    /// `Esc`. What the viewer holds after the key is what `after_key`
    /// says.
    pub fn handle_key(&mut self, key: Key) -> (quit: bool)
        requires
            old(self).is_well_formed(),
        ensures
            final(self).is_well_formed(),
            quit == (key == Key::Esc),
            final(self).model() == after_key(old(self).model(), key),
    {
        match key {
            Key::Esc => {
                return true;
            },
            Key::Other => {},
            Key::Left => {
                if self.active_tab == 0 {
                    self.active_tab = self.tabs.len() - 1;
                } else {
                    self.active_tab -= 1;
                }
                assert(self.model().tabs =~= old(self).model().tabs);
            },
            Key::Right => {
                let open = self.tabs.len();
                if self.active_tab + 1 >= open {
                    self.active_tab = 0;
                } else {
                    self.active_tab += 1;
                }
                assert(self.model().tabs =~= old(self).model().tabs);
            },
            Key::Char(c) => {
                if c == 'N' {
                    self.tabs.push(Tab::new());
                    self.active_tab = self.tabs.len() - 1;
                    assert(self.model().tabs =~= old(self).model().tabs.push(fresh_tab()));
                } else if c == 'K' {
                    self.tabs.remove(self.active_tab);
                    assert(self.model().tabs =~= old(self).model().tabs.remove(
                        old(self).active_tab as int,
                    ));
                    if self.tabs.len() == 0 {
                        self.tabs.push(Tab::new());
                        self.active_tab = 0;
                        assert(self.model().tabs =~= seq![fresh_tab()]);
                    } else if self.active_tab >= self.tabs.len() {
                        self.active_tab = self.tabs.len() - 1;
                    }
                } else {
                    let mut tab = self.tabs.remove(self.active_tab);
                    tab.handle_char(c);
                    self.tabs.insert(self.active_tab, tab);
                    assert(self.model().tabs =~= old(self).model().tabs.update(
                        old(self).active_tab as int,
                        tab_after(old(self).model().tabs[old(self).active_tab as int], c),
                    ));
                }
            },
        }
        false
    }
}

} // verus!
