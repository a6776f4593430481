//! The actions that generate the cube group. [`Move`] is the canonical
//! form: turns of the two faces that lie across one axis. [`Turn`] and
//! [`QuarterTurn`] are the familiar named vocabularies, each mapped into
//! `Move`.

use vstd::prelude::*;
use vstd::string::{StringExecFns, StringSliceAdditionalSpecFns};
use vstd::std_specs::cmp::PartialEqSpecImpl;
use vstd::std_specs::convert::FromSpecImpl;

use crate::cube::{face_turned, lemma_face_turns_add, lemma_turns_modulo, moved};
use crate::cubelet::{Axis, Rotation};
use crate::word::{folded, lemma_folded_concat};
use crate::error::ErrorKind;

verus! {

/// The axis, the number of quarter turns of the face on its negative side,
/// and the number of quarter turns of the face on its positive side. Turn
/// counts are read modulo four.
#[derive(Clone, Copy, Debug)]
pub struct Move(pub Axis, pub u8, pub u8);

impl PartialEqSpecImpl for Move {
    open spec fn obeys_eq_spec() -> bool {
        true
    }

    /// Two moves that turn nothing are equal whatever their axes; any
    /// other two are equal where axis and both counts agree.
    open spec fn eq_spec(&self, other: &Move) -> bool {
        (self.1 == 0 && self.2 == 0 && other.1 == 0 && other.2 == 0) || (self.0 == other.0
            && self.1 == other.1 && self.2 == other.2)
    }
}

impl PartialEq for Move {
    fn eq(&self, other: &Move) -> (r: bool) {
        (self.1 == 0 && self.2 == 0 && other.1 == 0 && other.2 == 0) || (self.0 == other.0
            && self.1 == other.1 && self.2 == other.2)
    }
}

impl Eq for Move {

}

/// The digit of a turn count, taken modulo four.
pub open spec fn digit_shown(turns: u8) -> Seq<char> {
    if turns % 4 == 0 {
        "0"@
    } else if turns % 4 == 1 {
        "1"@
    } else if turns % 4 == 2 {
        "2"@
    } else {
        "3"@
    }
}

/// The digit of a turn count, taken modulo four.
pub fn digit_name(turns: u8) -> (text: &'static str)
    ensures
        text@ == digit_shown(turns),
{
    if turns % 4 == 0 {
        "0"
    } else if turns % 4 == 1 {
        "1"
    } else if turns % 4 == 2 {
        "2"
    } else {
        "3"
    }
}

/// The axis with the given number: X, Y, and Z for anything else.
pub open spec fn axis_numbered(n: int) -> Axis {
    if n == 0 {
        Axis::X
    } else if n == 1 {
        Axis::Y
    } else {
        Axis::Z
    }
}

impl Move {
    /// Whether both turn counts are below four.
    pub open spec fn is_reduced(self) -> bool {
        self.1 < 4 && self.2 < 4
    }

    /// Whether the move turns nothing.
    pub open spec fn is_neutral(self) -> bool {
        self.1 % 4 == 0 && self.2 % 4 == 0
    }

    /// The move that undoes this one.
    pub open spec fn inverted(self) -> Move {
        Move(self.0, ((4 - self.1) % 4) as u8, ((4 - self.2) % 4) as u8)
    }

    /// The two moves made one after the other, where they share an axis.
    pub open spec fn merged(self, other: Move) -> Move {
        Move(self.0, ((self.1 + other.1) % 4) as u8, ((self.2 + other.2) % 4) as u8)
    }

    /// What is left of two consecutive moves: nothing where they cancel,
    /// one move where they share an axis, and both where they do not.
    pub open spec fn reduced(m1: Move, m2: Move) -> (Option<Move>, Option<Move>) {
        if m1.0 == m2.0 {
            if m1.merged(m2).1 == 0 && m1.merged(m2).2 == 0 {
                (None, None)
            } else {
                (Some(m1.merged(m2)), None)
            }
        } else {
            (Some(m1), Some(m2))
        }
    }

    /// The 45 moves that turn something, ordered by the count of the
    /// negative face, then by that of the positive face, then by axis.
    pub open spec fn vocabulary() -> Seq<Move> {
        Seq::new(
            45,
            |k: int| Move(axis_numbered(k % 3), ((k + 3) / 12) as u8, (((k + 3) / 3) % 4) as u8),
        )
    }

    /// The three text bytes of a move: the axis letter and the two counts
    /// as digits.
    pub open spec fn spelled(self) -> Seq<u8> {
        seq![
            match self.0 {
                Axis::X => 88u8,
                Axis::Y => 89u8,
                Axis::Z => 90u8,
            },
            (48 + self.1 % 4) as u8,
            (48 + self.2 % 4) as u8,
        ]
    }

    /// The move that undoes this one.
    pub fn inverse(&self) -> (r: Move)
        ensures
            r == self.inverted(),
    {
        Move(self.0, (4 - self.1 % 4) % 4, (4 - self.2 % 4) % 4)
    }

    /// The 15 moves about one axis that turn something, ordered by the
    /// count of the negative face, then by that of the positive face.
    pub fn axis_moves(axis: Axis) -> (moves: [Move; 15])
        ensures
            forall|i: int|
                0 <= i < 15 ==> #[trigger] moves[i] == Move(
                    axis,
                    ((i + 1) / 4) as u8,
                    ((i + 1) % 4) as u8,
                ),
    {
        [
            Move(axis, 0, 1),
            Move(axis, 0, 2),
            Move(axis, 0, 3),
            Move(axis, 1, 0),
            Move(axis, 1, 1),
            Move(axis, 1, 2),
            Move(axis, 1, 3),
            Move(axis, 2, 0),
            Move(axis, 2, 1),
            Move(axis, 2, 2),
            Move(axis, 2, 3),
            Move(axis, 3, 0),
            Move(axis, 3, 1),
            Move(axis, 3, 2),
            Move(axis, 3, 3),
        ]
    }

    /// Combines two consecutive moves. Moves about one axis add up, face
    /// by face and modulo four, and leave nothing where the sum turns
    /// nothing; moves about different axes are handed back as they are.
    pub fn reduce(m1: Move, m2: Move) -> (r: (Option<Move>, Option<Move>))
        ensures
            r == Move::reduced(m1, m2),
    {
        if m1.0 == m2.0 {
            let left = Move(m1.0, (m1.1 % 4 + m2.1 % 4) % 4, (m1.2 % 4 + m2.2 % 4) % 4);
            if left.1 == 0 && left.2 == 0 {
                (None, None)
            } else {
                (Some(left), None)
            }
        } else {
            (Some(m1), Some(m2))
        }
    }

    /// Reads a move from its three text bytes: an axis letter `X`, `Y` or
    /// `Z` and two digits from `0` to `3`. Anything else is refused.
    pub fn parse(text: &[u8]) -> (r: Result<Move, ErrorKind>)
        ensures
            match r {
                Ok(m) => m.is_reduced() && m.spelled() == text@,
                Err(e) => e == ErrorKind::InvalidEncoding && forall|m: Move|
                    m.is_reduced() ==> m.spelled() != text@,
            },
    {
        if text.len() != 3 {
            assert forall|m: Move| m.is_reduced() implies m.spelled() != text@ by {
                assert(m.spelled().len() == 3);
            }
            return Err(ErrorKind::InvalidEncoding);
        }
        let axis = if text[0] == 88 {
            Axis::X
        } else if text[0] == 89 {
            Axis::Y
        } else if text[0] == 90 {
            Axis::Z
        } else {
            assert forall|m: Move| m.is_reduced() implies m.spelled() != text@ by {
                assert(m.spelled()[0] != text@[0]);
            }
            return Err(ErrorKind::InvalidEncoding);
        };
        if text[1] < 48 || text[1] > 51 {
            assert forall|m: Move| m.is_reduced() implies m.spelled() != text@ by {
                assert(m.spelled()[1] != text@[1]);
            }
            return Err(ErrorKind::InvalidEncoding);
        }
        if text[2] < 48 || text[2] > 51 {
            assert forall|m: Move| m.is_reduced() implies m.spelled() != text@ by {
                assert(m.spelled()[2] != text@[2]);
            }
            return Err(ErrorKind::InvalidEncoding);
        }
        let m = Move(axis, text[1] - 48, text[2] - 48);
        assert(m.spelled() =~= text@);
        Ok(m)
    }

    /// Reads a move from text, as `parse` does from its bytes.
    pub fn from_str(text: &str) -> (r: Result<Move, ErrorKind>)
        ensures
            match r {
                Ok(m) => m.is_reduced() && m.spelled() == text.spec_bytes(),
                Err(e) => e == ErrorKind::InvalidEncoding && forall|m: Move|
                    m.is_reduced() ==> m.spelled() != text.spec_bytes(),
            },
    {
        Move::parse(text.as_bytes())
    }

    /// The three text bytes of the move, as `parse` reads them.
    pub fn to_text(&self) -> (text: Vec<u8>)
        ensures
            text@ == self.spelled(),
    {
        let letter: u8 = match self.0 {
            Axis::X => 88,
            Axis::Y => 89,
            Axis::Z => 90,
        };
        let text = vec![letter, 48 + self.1 % 4, 48 + self.2 % 4];
        assert(text@ =~= self.spelled());
        text
    }
}

/// A generator vocabulary: a finite set of actions, each of which stands
/// for one canonical move.
pub trait Action: Copy + Sized {
    /// The canonical move of an action.
    spec fn as_move(self) -> Move;

    /// The action that undoes this one.
    spec fn inverted(self) -> Self;

    /// The actions that spell a move, in the order in which they are made.
    spec fn spelling(m: Move) -> Seq<Self>;

    /// All the actions of the vocabulary, in its conventional order.
    spec fn vocabulary() -> Seq<Self>;

    /// The name of the vocabulary, which a store records.
    spec fn label() -> Seq<u8>;

    /// The text of an action.
    spec fn shown(self) -> Seq<char>;

    /// The actions that spell a move reach what the move reaches.
    proof fn lemma_spelling(m: Move, s: Seq<Rotation>)
        requires
            s.len() == 20,
        ensures
            folded(
                s,
                Seq::new(Self::spelling(m).len(), |i: int| Self::spelling(m)[i].as_move()),
            ) == moved(s, m),
    ;

    /// The canonical move of an action.
    fn to_move(self) -> (m: Move)
        ensures
            m == self.as_move(),
    ;

    /// The action that undoes this one.
    fn inverse(&self) -> (r: Self)
        ensures
            r == self.inverted(),
            r.as_move() == self.as_move().inverted(),
    ;

    /// The actions that spell a move: none for a move that turns nothing.
    fn from_move(m: Move) -> (actions: Vec<Self>)
        ensures
            actions@ == Self::spelling(m),
    ;

    /// All the actions of the vocabulary.
    fn all() -> (actions: Vec<Self>)
        ensures
            actions@ == Self::vocabulary(),
    ;

    /// The name of the vocabulary.
    fn name() -> (label: Vec<u8>)
        ensures
            label@ == Self::label(),
    ;

    /// The text of an action.
    fn to_string(&self) -> (text: String)
        ensures
            text@ == self.shown(),
    ;
}

impl Action for Move {
    open spec fn as_move(self) -> Move {
        self
    }

    open spec fn inverted(self) -> Move {
        Move::inverted(self)
    }

    open spec fn spelling(m: Move) -> Seq<Move> {
        seq![m]
    }

    open spec fn vocabulary() -> Seq<Move> {
        Move::vocabulary()
    }

    open spec fn label() -> Seq<u8> {
        seq![77u8, 111u8, 118u8, 101u8]
    }

    /// The letter of the axis and the two counts, each modulo four.
    open spec fn shown(self) -> Seq<char> {
        self.0.shown() + digit_shown(self.1) + digit_shown(self.2)
    }

    proof fn lemma_spelling(m: Move, s: Seq<Rotation>) {
        let spelling = <Move as Action>::spelling(m);
        let spelled = Seq::new(spelling.len(), |i: int| spelling[i].as_move());
        assert(spelled =~= seq![m]);
        assert(seq![m].skip(1) =~= Seq::<Move>::empty());
        assert(folded(s, seq![m]) == folded(moved(s, m), seq![m].skip(1)));
    }

    fn to_move(self) -> (m: Move) {
        self
    }

    fn inverse(&self) -> (r: Move) {
        Move::inverse(self)
    }

    fn from_move(m: Move) -> (actions: Vec<Move>) {
        vec![m]
    }

    fn all() -> (actions: Vec<Move>) {
        let mut actions: Vec<Move> = Vec::new();
        let mut k: u8 = 0;
        while k < 45
            invariant
                k <= 45,
                actions@.len() == k,
                forall|i: int| 0 <= i < k ==> #[trigger] actions@[i] == Move::vocabulary()[i],
            decreases 45 - k,
        {
            let axis = if k % 3 == 0 {
                Axis::X
            } else if k % 3 == 1 {
                Axis::Y
            } else {
                Axis::Z
            };
            actions.push(Move(axis, (k + 3) / 12, ((k + 3) / 3) % 4));
            k += 1;
        }
        assert(actions@ =~= Move::vocabulary());
        actions
    }

    fn name() -> (label: Vec<u8>) {
        let label = vec![77u8, 111u8, 118u8, 101u8];
        assert(label@ =~= seq![77u8, 111u8, 118u8, 101u8]);
        label
    }

    fn to_string(&self) -> (text: String) {
        let mut text = self.0.name().to_owned();
        text.append(digit_name(self.1));
        text.append(digit_name(self.2));
        text
    }
}

/// The eighteen face turns: a letter for the face, `2` for a half turn and
/// `3` for a quarter turn the other way.
#[derive(Clone, Copy, Debug, PartialEq, Eq, Structural)]
pub enum Turn {
    L,
    L2,
    L3,
    R,
    R2,
    R3,
    F,
    F2,
    F3,
    B,
    B2,
    B3,
    D,
    D2,
    D3,
    U,
    U2,
    U3,
}

impl Turn {
    /// The move that an action stands for.
    pub open spec fn move_of(self) -> Move {
        match self {
            Turn::L => Move(Axis::X, 1, 0),
            Turn::L2 => Move(Axis::X, 2, 0),
            Turn::L3 => Move(Axis::X, 3, 0),
            Turn::R => Move(Axis::X, 0, 3),
            Turn::R2 => Move(Axis::X, 0, 2),
            Turn::R3 => Move(Axis::X, 0, 1),
            Turn::F => Move(Axis::Y, 1, 0),
            Turn::F2 => Move(Axis::Y, 2, 0),
            Turn::F3 => Move(Axis::Y, 3, 0),
            Turn::B => Move(Axis::Y, 0, 3),
            Turn::B2 => Move(Axis::Y, 0, 2),
            Turn::B3 => Move(Axis::Y, 0, 1),
            Turn::D => Move(Axis::Z, 1, 0),
            Turn::D2 => Move(Axis::Z, 2, 0),
            Turn::D3 => Move(Axis::Z, 3, 0),
            Turn::U => Move(Axis::Z, 0, 3),
            Turn::U2 => Move(Axis::Z, 0, 2),
            Turn::U3 => Move(Axis::Z, 0, 1),
        }
    }

    /// The actions that give one face a number of quarter turns, taken
    /// modulo four: the face on the positive side of the axis, or the one
    /// on its negative side.
    pub open spec fn face_spelling(axis: Axis, positive: bool, turns: u8) -> Seq<Turn> {
        match (axis, positive, (turns % 4) as u8) {
            (Axis::X, false, 1) => seq![Turn::L],
            (Axis::X, false, 2) => seq![Turn::L2],
            (Axis::X, false, 3) => seq![Turn::L3],
            (Axis::X, true, 1) => seq![Turn::R3],
            (Axis::X, true, 2) => seq![Turn::R2],
            (Axis::X, true, 3) => seq![Turn::R],
            (Axis::Y, false, 1) => seq![Turn::F],
            (Axis::Y, false, 2) => seq![Turn::F2],
            (Axis::Y, false, 3) => seq![Turn::F3],
            (Axis::Y, true, 1) => seq![Turn::B3],
            (Axis::Y, true, 2) => seq![Turn::B2],
            (Axis::Y, true, 3) => seq![Turn::B],
            (Axis::Z, false, 1) => seq![Turn::D],
            (Axis::Z, false, 2) => seq![Turn::D2],
            (Axis::Z, false, 3) => seq![Turn::D3],
            (Axis::Z, true, 1) => seq![Turn::U3],
            (Axis::Z, true, 2) => seq![Turn::U2],
            (Axis::Z, true, 3) => seq![Turn::U],
            _ => seq![],
        }
    }

    /// The moves for which some actions stand.
    pub open spec fn moves(actions: Seq<Turn>) -> Seq<Move> {
        Seq::new(actions.len(), |i: int| actions[i].move_of())
    }

    /// The actions that spell the turns of one face reach what those
    /// turns reach.
    pub proof fn lemma_face_spelling(axis: Axis, positive: bool, turns: u8, s: Seq<Rotation>)
        requires
            s.len() == 20,
        ensures
            folded(s, Turn::moves(Turn::face_spelling(axis, positive, turns))) == face_turned(
                s,
                axis,
                if positive {
                    2int
                } else {
                    0int
                },
                turns as int,
            ),
    {
        let spelling = Turn::face_spelling(axis, positive, turns);
        let face = if positive {
            2int
        } else {
            0int
        };
        lemma_turns_modulo(s, axis, face, turns as int);
        if spelling.len() == 0 {
            assert(Turn::moves(spelling) =~= Seq::<Move>::empty());
        } else if spelling.len() == 1 {
            let m = spelling[0].move_of();
            assert(Turn::moves(spelling) =~= seq![m]);
            assert(seq![m].skip(1) =~= Seq::<Move>::empty());
            assert(folded(s, seq![m]) == folded(moved(s, m), seq![m].skip(1)));
            lemma_turns_modulo(s, axis, face, (if positive {
                m.2
            } else {
                m.1
            }) as int);
        } else {
            let m = spelling[0].move_of();
            assert(spelling[1] == spelling[0]);
            assert(Turn::moves(spelling) =~= seq![m, m]);
            assert(seq![m, m].skip(1) =~= seq![m]);
            assert(seq![m].skip(1) =~= Seq::<Move>::empty());
            assert(folded(s, seq![m, m]) == folded(moved(s, m), seq![m]));
            assert(folded(moved(s, m), seq![m]) == folded(
                moved(moved(s, m), m),
                seq![m].skip(1),
            ));
            let quarter = (if positive {
                m.2
            } else {
                m.1
            }) as int;
            lemma_face_turns_add(s, axis, face, quarter, quarter);
            lemma_turns_modulo(s, axis, face, quarter + quarter);
        }
    }

    /// A move is spelled in no more than two actions, and in none only
    /// where it turns nothing.
    pub proof fn lemma_spelling_len(m: Move)
        ensures
            <Turn as Action>::spelling(m).len() <= 2,
            <Turn as Action>::spelling(m).len() == 0 <==> m.is_neutral(),
    {
    }

    /// Two actions that stand for one move are one action.
    pub proof fn lemma_moves_tell_apart(a: Turn, b: Turn)
        requires
            a.move_of() == b.move_of(),
        ensures
            a == b,
    {
    }

    /// The usual name of the action, a prime marking a turn the other
    /// way.
    pub open spec fn name_shown(self) -> Seq<char> {
        match self {
            Turn::L => "L"@,
            Turn::L2 => "L2"@,
            Turn::L3 => "L'"@,
            Turn::R => "R"@,
            Turn::R2 => "R2"@,
            Turn::R3 => "R'"@,
            Turn::F => "F"@,
            Turn::F2 => "F2"@,
            Turn::F3 => "F'"@,
            Turn::B => "B"@,
            Turn::B2 => "B2"@,
            Turn::B3 => "B'"@,
            Turn::D => "D"@,
            Turn::D2 => "D2"@,
            Turn::D3 => "D'"@,
            Turn::U => "U"@,
            Turn::U2 => "U2"@,
            Turn::U3 => "U'"@,
        }
    }

    /// The usual name of the action, a prime marking a turn the other
    /// way.
    pub fn name_of(&self) -> (text: &'static str)
        ensures
            text@ == self.name_shown(),
    {
        match self {
            Turn::L => "L",
            Turn::L2 => "L2",
            Turn::L3 => "L'",
            Turn::R => "R",
            Turn::R2 => "R2",
            Turn::R3 => "R'",
            Turn::F => "F",
            Turn::F2 => "F2",
            Turn::F3 => "F'",
            Turn::B => "B",
            Turn::B2 => "B2",
            Turn::B3 => "B'",
            Turn::D => "D",
            Turn::D2 => "D2",
            Turn::D3 => "D'",
            Turn::U => "U",
            Turn::U2 => "U2",
            Turn::U3 => "U'",
        }
    }
}

impl FromSpecImpl<Turn> for Move {
    open spec fn obeys_from_spec() -> bool {
        true
    }

    open spec fn from_spec(v: Turn) -> Move {
        v.move_of()
    }
}

impl From<Turn> for Move {
    fn from(value: Turn) -> (m: Move) {
        match value {
            Turn::L => Move(Axis::X, 1, 0),
            Turn::L2 => Move(Axis::X, 2, 0),
            Turn::L3 => Move(Axis::X, 3, 0),
            Turn::R => Move(Axis::X, 0, 3),
            Turn::R2 => Move(Axis::X, 0, 2),
            Turn::R3 => Move(Axis::X, 0, 1),
            Turn::F => Move(Axis::Y, 1, 0),
            Turn::F2 => Move(Axis::Y, 2, 0),
            Turn::F3 => Move(Axis::Y, 3, 0),
            Turn::B => Move(Axis::Y, 0, 3),
            Turn::B2 => Move(Axis::Y, 0, 2),
            Turn::B3 => Move(Axis::Y, 0, 1),
            Turn::D => Move(Axis::Z, 1, 0),
            Turn::D2 => Move(Axis::Z, 2, 0),
            Turn::D3 => Move(Axis::Z, 3, 0),
            Turn::U => Move(Axis::Z, 0, 3),
            Turn::U2 => Move(Axis::Z, 0, 2),
            Turn::U3 => Move(Axis::Z, 0, 1),
        }
    }
}

impl Action for Turn {
    open spec fn as_move(self) -> Move {
        self.move_of()
    }

    open spec fn inverted(self) -> Turn {
        match self {
            Turn::L => Turn::L3,
            Turn::L2 => Turn::L2,
            Turn::L3 => Turn::L,
            Turn::R => Turn::R3,
            Turn::R2 => Turn::R2,
            Turn::R3 => Turn::R,
            Turn::F => Turn::F3,
            Turn::F2 => Turn::F2,
            Turn::F3 => Turn::F,
            Turn::B => Turn::B3,
            Turn::B2 => Turn::B2,
            Turn::B3 => Turn::B,
            Turn::D => Turn::D3,
            Turn::D2 => Turn::D2,
            Turn::D3 => Turn::D,
            Turn::U => Turn::U3,
            Turn::U2 => Turn::U2,
            Turn::U3 => Turn::U,
        }
    }

    open spec fn spelling(m: Move) -> Seq<Turn> {
        Turn::face_spelling(m.0, false, m.1) + Turn::face_spelling(m.0, true, m.2)
    }

    open spec fn vocabulary() -> Seq<Turn> {
        seq![Turn::L, Turn::L2, Turn::L3, Turn::R, Turn::R2, Turn::R3, Turn::U, Turn::U2, Turn::U3, Turn::D, Turn::D2, Turn::D3, Turn::F, Turn::F2, Turn::F3, Turn::B, Turn::B2, Turn::B3]
    }

    open spec fn shown(self) -> Seq<char> {
        self.name_shown()
    }

    open spec fn label() -> Seq<u8> {
        seq![84u8, 117u8, 114u8, 110u8]
    }

    proof fn lemma_spelling(m: Move, s: Seq<Rotation>) {
        let near = Turn::face_spelling(m.0, false, m.1);
        let far = Turn::face_spelling(m.0, true, m.2);
        Turn::lemma_face_spelling(m.0, false, m.1, s);
        let between = face_turned(s, m.0, 0, m.1 as int);
        crate::cube::lemma_face_turned_len(s, m.0, 0, m.1 as int);
        Turn::lemma_face_spelling(m.0, true, m.2, between);
        let spelling = <Turn as Action>::spelling(m);
        let spelled = Seq::new(spelling.len(), |i: int| spelling[i].as_move());
        assert(spelled =~= Turn::moves(near) + Turn::moves(far));
        lemma_folded_concat(s, Turn::moves(near), Turn::moves(far));
        assert(folded(s, spelled) == face_turned(between, m.0, 2, m.2 as int));
    }

    fn to_move(self) -> (m: Move) {
        Move::from(self)
    }

    fn inverse(&self) -> (r: Turn) {
        match self {
            Turn::L => Turn::L3,
            Turn::L2 => Turn::L2,
            Turn::L3 => Turn::L,
            Turn::R => Turn::R3,
            Turn::R2 => Turn::R2,
            Turn::R3 => Turn::R,
            Turn::F => Turn::F3,
            Turn::F2 => Turn::F2,
            Turn::F3 => Turn::F,
            Turn::B => Turn::B3,
            Turn::B2 => Turn::B2,
            Turn::B3 => Turn::B,
            Turn::D => Turn::D3,
            Turn::D2 => Turn::D2,
            Turn::D3 => Turn::D,
            Turn::U => Turn::U3,
            Turn::U2 => Turn::U2,
            Turn::U3 => Turn::U,
        }
    }

    fn from_move(m: Move) -> (actions: Vec<Turn>) {
        let actions = match (m.0, m.1 % 4, m.2 % 4) {
            (Axis::X, 0, 1) => vec![Turn::R3],
            (Axis::X, 0, 2) => vec![Turn::R2],
            (Axis::X, 0, 3) => vec![Turn::R],
            (Axis::X, 1, 0) => vec![Turn::L],
            (Axis::X, 1, 1) => vec![Turn::L, Turn::R3],
            (Axis::X, 1, 2) => vec![Turn::L, Turn::R2],
            (Axis::X, 1, 3) => vec![Turn::L, Turn::R],
            (Axis::X, 2, 0) => vec![Turn::L2],
            (Axis::X, 2, 1) => vec![Turn::L2, Turn::R3],
            (Axis::X, 2, 2) => vec![Turn::L2, Turn::R2],
            (Axis::X, 2, 3) => vec![Turn::L2, Turn::R],
            (Axis::X, 3, 0) => vec![Turn::L3],
            (Axis::X, 3, 1) => vec![Turn::L3, Turn::R3],
            (Axis::X, 3, 2) => vec![Turn::L3, Turn::R2],
            (Axis::X, 3, 3) => vec![Turn::L3, Turn::R],
            (Axis::Y, 0, 1) => vec![Turn::B3],
            (Axis::Y, 0, 2) => vec![Turn::B2],
            (Axis::Y, 0, 3) => vec![Turn::B],
            (Axis::Y, 1, 0) => vec![Turn::F],
            (Axis::Y, 1, 1) => vec![Turn::F, Turn::B3],
            (Axis::Y, 1, 2) => vec![Turn::F, Turn::B2],
            (Axis::Y, 1, 3) => vec![Turn::F, Turn::B],
            (Axis::Y, 2, 0) => vec![Turn::F2],
            (Axis::Y, 2, 1) => vec![Turn::F2, Turn::B3],
            (Axis::Y, 2, 2) => vec![Turn::F2, Turn::B2],
            (Axis::Y, 2, 3) => vec![Turn::F2, Turn::B],
            (Axis::Y, 3, 0) => vec![Turn::F3],
            (Axis::Y, 3, 1) => vec![Turn::F3, Turn::B3],
            (Axis::Y, 3, 2) => vec![Turn::F3, Turn::B2],
            (Axis::Y, 3, 3) => vec![Turn::F3, Turn::B],
            (Axis::Z, 0, 1) => vec![Turn::U3],
            (Axis::Z, 0, 2) => vec![Turn::U2],
            (Axis::Z, 0, 3) => vec![Turn::U],
            (Axis::Z, 1, 0) => vec![Turn::D],
            (Axis::Z, 1, 1) => vec![Turn::D, Turn::U3],
            (Axis::Z, 1, 2) => vec![Turn::D, Turn::U2],
            (Axis::Z, 1, 3) => vec![Turn::D, Turn::U],
            (Axis::Z, 2, 0) => vec![Turn::D2],
            (Axis::Z, 2, 1) => vec![Turn::D2, Turn::U3],
            (Axis::Z, 2, 2) => vec![Turn::D2, Turn::U2],
            (Axis::Z, 2, 3) => vec![Turn::D2, Turn::U],
            (Axis::Z, 3, 0) => vec![Turn::D3],
            (Axis::Z, 3, 1) => vec![Turn::D3, Turn::U3],
            (Axis::Z, 3, 2) => vec![Turn::D3, Turn::U2],
            (Axis::Z, 3, 3) => vec![Turn::D3, Turn::U],
            _ => vec![],
        };
        assert(actions@ =~= Turn::spelling(m));
        actions
    }

    fn all() -> (actions: Vec<Turn>) {
        let actions = vec![Turn::L, Turn::L2, Turn::L3, Turn::R, Turn::R2, Turn::R3, Turn::U, Turn::U2, Turn::U3, Turn::D, Turn::D2, Turn::D3, Turn::F, Turn::F2, Turn::F3, Turn::B, Turn::B2, Turn::B3];
        assert(actions@ =~= Turn::vocabulary());
        actions
    }

    fn to_string(&self) -> (text: String) {
        self.name_of().to_owned()
    }

    fn name() -> (label: Vec<u8>) {
        let label = vec![84u8, 117u8, 114u8, 110u8];
        assert(label@ =~= Turn::label());
        label
    }
}

/// The twelve quarter turns of a face, `3` for the turn the other way.
#[derive(Clone, Copy, Debug, PartialEq, Eq, Structural)]
pub enum QuarterTurn {
    L,
    L3,
    R,
    R3,
    U,
    U3,
    D,
    D3,
    F,
    F3,
    B,
    B3,
}

impl QuarterTurn {
    /// The move that an action stands for.
    pub open spec fn move_of(self) -> Move {
        match self {
            QuarterTurn::L => Move(Axis::X, 1, 0),
            QuarterTurn::L3 => Move(Axis::X, 3, 0),
            QuarterTurn::R => Move(Axis::X, 0, 3),
            QuarterTurn::R3 => Move(Axis::X, 0, 1),
            QuarterTurn::U => Move(Axis::Z, 0, 3),
            QuarterTurn::U3 => Move(Axis::Z, 0, 1),
            QuarterTurn::D => Move(Axis::Z, 1, 0),
            QuarterTurn::D3 => Move(Axis::Z, 3, 0),
            QuarterTurn::F => Move(Axis::Y, 1, 0),
            QuarterTurn::F3 => Move(Axis::Y, 3, 0),
            QuarterTurn::B => Move(Axis::Y, 0, 3),
            QuarterTurn::B3 => Move(Axis::Y, 0, 1),
        }
    }

    /// The actions that give one face a number of quarter turns, taken
    /// modulo four: the face on the positive side of the axis, or the one
    /// on its negative side.
    pub open spec fn face_spelling(axis: Axis, positive: bool, turns: u8) -> Seq<QuarterTurn> {
        match (axis, positive, (turns % 4) as u8) {
            (Axis::X, false, 1) => seq![QuarterTurn::L],
            (Axis::X, false, 2) => seq![QuarterTurn::L, QuarterTurn::L],
            (Axis::X, false, 3) => seq![QuarterTurn::L3],
            (Axis::X, true, 1) => seq![QuarterTurn::R3],
            (Axis::X, true, 2) => seq![QuarterTurn::R, QuarterTurn::R],
            (Axis::X, true, 3) => seq![QuarterTurn::R],
            (Axis::Y, false, 1) => seq![QuarterTurn::F],
            (Axis::Y, false, 2) => seq![QuarterTurn::F, QuarterTurn::F],
            (Axis::Y, false, 3) => seq![QuarterTurn::F3],
            (Axis::Y, true, 1) => seq![QuarterTurn::B3],
            (Axis::Y, true, 2) => seq![QuarterTurn::B, QuarterTurn::B],
            (Axis::Y, true, 3) => seq![QuarterTurn::B],
            (Axis::Z, false, 1) => seq![QuarterTurn::D],
            (Axis::Z, false, 2) => seq![QuarterTurn::D, QuarterTurn::D],
            (Axis::Z, false, 3) => seq![QuarterTurn::D3],
            (Axis::Z, true, 1) => seq![QuarterTurn::U3],
            (Axis::Z, true, 2) => seq![QuarterTurn::U, QuarterTurn::U],
            (Axis::Z, true, 3) => seq![QuarterTurn::U],
            _ => seq![],
        }
    }

    /// The moves for which some actions stand.
    pub open spec fn moves(actions: Seq<QuarterTurn>) -> Seq<Move> {
        Seq::new(actions.len(), |i: int| actions[i].move_of())
    }

    /// The actions that spell the turns of one face reach what those
    /// turns reach.
    pub proof fn lemma_face_spelling(axis: Axis, positive: bool, turns: u8, s: Seq<Rotation>)
        requires
            s.len() == 20,
        ensures
            folded(s, QuarterTurn::moves(QuarterTurn::face_spelling(axis, positive, turns))) == face_turned(
                s,
                axis,
                if positive {
                    2int
                } else {
                    0int
                },
                turns as int,
            ),
    {
        let spelling = QuarterTurn::face_spelling(axis, positive, turns);
        let face = if positive {
            2int
        } else {
            0int
        };
        lemma_turns_modulo(s, axis, face, turns as int);
        if spelling.len() == 0 {
            assert(QuarterTurn::moves(spelling) =~= Seq::<Move>::empty());
        } else if spelling.len() == 1 {
            let m = spelling[0].move_of();
            assert(QuarterTurn::moves(spelling) =~= seq![m]);
            assert(seq![m].skip(1) =~= Seq::<Move>::empty());
            assert(folded(s, seq![m]) == folded(moved(s, m), seq![m].skip(1)));
            lemma_turns_modulo(s, axis, face, (if positive {
                m.2
            } else {
                m.1
            }) as int);
        } else {
            let m = spelling[0].move_of();
            assert(spelling[1] == spelling[0]);
            assert(QuarterTurn::moves(spelling) =~= seq![m, m]);
            assert(seq![m, m].skip(1) =~= seq![m]);
            assert(seq![m].skip(1) =~= Seq::<Move>::empty());
            assert(folded(s, seq![m, m]) == folded(moved(s, m), seq![m]));
            assert(folded(moved(s, m), seq![m]) == folded(
                moved(moved(s, m), m),
                seq![m].skip(1),
            ));
            let quarter = (if positive {
                m.2
            } else {
                m.1
            }) as int;
            lemma_face_turns_add(s, axis, face, quarter, quarter);
            lemma_turns_modulo(s, axis, face, quarter + quarter);
        }
    }

    /// A move is spelled in no more than four actions, and in none only
    /// where it turns nothing.
    pub proof fn lemma_spelling_len(m: Move)
        ensures
            <QuarterTurn as Action>::spelling(m).len() <= 4,
            <QuarterTurn as Action>::spelling(m).len() == 0 <==> m.is_neutral(),
    {
    }

    /// Two actions that stand for one move are one action.
    pub proof fn lemma_moves_tell_apart(a: QuarterTurn, b: QuarterTurn)
        requires
            a.move_of() == b.move_of(),
        ensures
            a == b,
    {
    }

    /// The usual name of the action, a prime marking a turn the other
    /// way.
    pub open spec fn name_shown(self) -> Seq<char> {
        match self {
            QuarterTurn::L => "L"@,
            QuarterTurn::L3 => "L'"@,
            QuarterTurn::R => "R"@,
            QuarterTurn::R3 => "R'"@,
            QuarterTurn::U => "U"@,
            QuarterTurn::U3 => "U'"@,
            QuarterTurn::D => "D"@,
            QuarterTurn::D3 => "D'"@,
            QuarterTurn::F => "F"@,
            QuarterTurn::F3 => "F'"@,
            QuarterTurn::B => "B"@,
            QuarterTurn::B3 => "B'"@,
        }
    }

    /// The usual name of the action, a prime marking a turn the other
    /// way.
    pub fn name_of(&self) -> (text: &'static str)
        ensures
            text@ == self.name_shown(),
    {
        match self {
            QuarterTurn::L => "L",
            QuarterTurn::L3 => "L'",
            QuarterTurn::R => "R",
            QuarterTurn::R3 => "R'",
            QuarterTurn::U => "U",
            QuarterTurn::U3 => "U'",
            QuarterTurn::D => "D",
            QuarterTurn::D3 => "D'",
            QuarterTurn::F => "F",
            QuarterTurn::F3 => "F'",
            QuarterTurn::B => "B",
            QuarterTurn::B3 => "B'",
        }
    }
}

impl FromSpecImpl<QuarterTurn> for Move {
    open spec fn obeys_from_spec() -> bool {
        true
    }

    open spec fn from_spec(v: QuarterTurn) -> Move {
        v.move_of()
    }
}

impl From<QuarterTurn> for Move {
    fn from(value: QuarterTurn) -> (m: Move) {
        match value {
            QuarterTurn::L => Move(Axis::X, 1, 0),
            QuarterTurn::L3 => Move(Axis::X, 3, 0),
            QuarterTurn::R => Move(Axis::X, 0, 3),
            QuarterTurn::R3 => Move(Axis::X, 0, 1),
            QuarterTurn::U => Move(Axis::Z, 0, 3),
            QuarterTurn::U3 => Move(Axis::Z, 0, 1),
            QuarterTurn::D => Move(Axis::Z, 1, 0),
            QuarterTurn::D3 => Move(Axis::Z, 3, 0),
            QuarterTurn::F => Move(Axis::Y, 1, 0),
            QuarterTurn::F3 => Move(Axis::Y, 3, 0),
            QuarterTurn::B => Move(Axis::Y, 0, 3),
            QuarterTurn::B3 => Move(Axis::Y, 0, 1),
        }
    }
}

impl Action for QuarterTurn {
    open spec fn as_move(self) -> Move {
        self.move_of()
    }

    open spec fn inverted(self) -> QuarterTurn {
        match self {
            QuarterTurn::L => QuarterTurn::L3,
            QuarterTurn::L3 => QuarterTurn::L,
            QuarterTurn::R => QuarterTurn::R3,
            QuarterTurn::R3 => QuarterTurn::R,
            QuarterTurn::U => QuarterTurn::U3,
            QuarterTurn::U3 => QuarterTurn::U,
            QuarterTurn::D => QuarterTurn::D3,
            QuarterTurn::D3 => QuarterTurn::D,
            QuarterTurn::F => QuarterTurn::F3,
            QuarterTurn::F3 => QuarterTurn::F,
            QuarterTurn::B => QuarterTurn::B3,
            QuarterTurn::B3 => QuarterTurn::B,
        }
    }

    open spec fn spelling(m: Move) -> Seq<QuarterTurn> {
        QuarterTurn::face_spelling(m.0, false, m.1) + QuarterTurn::face_spelling(m.0, true, m.2)
    }

    open spec fn vocabulary() -> Seq<QuarterTurn> {
        seq![QuarterTurn::L, QuarterTurn::L3, QuarterTurn::R, QuarterTurn::R3, QuarterTurn::U, QuarterTurn::U3, QuarterTurn::D, QuarterTurn::D3, QuarterTurn::F, QuarterTurn::F3, QuarterTurn::B, QuarterTurn::B3]
    }

    open spec fn shown(self) -> Seq<char> {
        self.name_shown()
    }

    open spec fn label() -> Seq<u8> {
        seq![81u8, 117u8, 97u8, 114u8, 116u8, 101u8, 114u8, 84u8, 117u8, 114u8, 110u8]
    }

    proof fn lemma_spelling(m: Move, s: Seq<Rotation>) {
        let near = QuarterTurn::face_spelling(m.0, false, m.1);
        let far = QuarterTurn::face_spelling(m.0, true, m.2);
        QuarterTurn::lemma_face_spelling(m.0, false, m.1, s);
        let between = face_turned(s, m.0, 0, m.1 as int);
        crate::cube::lemma_face_turned_len(s, m.0, 0, m.1 as int);
        QuarterTurn::lemma_face_spelling(m.0, true, m.2, between);
        let spelling = <QuarterTurn as Action>::spelling(m);
        let spelled = Seq::new(spelling.len(), |i: int| spelling[i].as_move());
        assert(spelled =~= QuarterTurn::moves(near) + QuarterTurn::moves(far));
        lemma_folded_concat(s, QuarterTurn::moves(near), QuarterTurn::moves(far));
        assert(folded(s, spelled) == face_turned(between, m.0, 2, m.2 as int));
    }

    fn to_move(self) -> (m: Move) {
        Move::from(self)
    }

    fn inverse(&self) -> (r: QuarterTurn) {
        match self {
            QuarterTurn::L => QuarterTurn::L3,
            QuarterTurn::L3 => QuarterTurn::L,
            QuarterTurn::R => QuarterTurn::R3,
            QuarterTurn::R3 => QuarterTurn::R,
            QuarterTurn::U => QuarterTurn::U3,
            QuarterTurn::U3 => QuarterTurn::U,
            QuarterTurn::D => QuarterTurn::D3,
            QuarterTurn::D3 => QuarterTurn::D,
            QuarterTurn::F => QuarterTurn::F3,
            QuarterTurn::F3 => QuarterTurn::F,
            QuarterTurn::B => QuarterTurn::B3,
            QuarterTurn::B3 => QuarterTurn::B,
        }
    }

    fn from_move(m: Move) -> (actions: Vec<QuarterTurn>) {
        let actions = match (m.0, m.1 % 4, m.2 % 4) {
            (Axis::X, 0, 1) => vec![QuarterTurn::R3],
            (Axis::X, 0, 2) => vec![QuarterTurn::R, QuarterTurn::R],
            (Axis::X, 0, 3) => vec![QuarterTurn::R],
            (Axis::X, 1, 0) => vec![QuarterTurn::L],
            (Axis::X, 1, 1) => vec![QuarterTurn::L, QuarterTurn::R3],
            (Axis::X, 1, 2) => vec![QuarterTurn::L, QuarterTurn::R, QuarterTurn::R],
            (Axis::X, 1, 3) => vec![QuarterTurn::L, QuarterTurn::R],
            (Axis::X, 2, 0) => vec![QuarterTurn::L, QuarterTurn::L],
            (Axis::X, 2, 1) => vec![QuarterTurn::L, QuarterTurn::L, QuarterTurn::R3],
            (Axis::X, 2, 2) => vec![QuarterTurn::L, QuarterTurn::L, QuarterTurn::R, QuarterTurn::R],
            (Axis::X, 2, 3) => vec![QuarterTurn::L, QuarterTurn::L, QuarterTurn::R],
            (Axis::X, 3, 0) => vec![QuarterTurn::L3],
            (Axis::X, 3, 1) => vec![QuarterTurn::L3, QuarterTurn::R3],
            (Axis::X, 3, 2) => vec![QuarterTurn::L3, QuarterTurn::R, QuarterTurn::R],
            (Axis::X, 3, 3) => vec![QuarterTurn::L3, QuarterTurn::R],
            (Axis::Y, 0, 1) => vec![QuarterTurn::B3],
            (Axis::Y, 0, 2) => vec![QuarterTurn::B, QuarterTurn::B],
            (Axis::Y, 0, 3) => vec![QuarterTurn::B],
            (Axis::Y, 1, 0) => vec![QuarterTurn::F],
            (Axis::Y, 1, 1) => vec![QuarterTurn::F, QuarterTurn::B3],
            (Axis::Y, 1, 2) => vec![QuarterTurn::F, QuarterTurn::B, QuarterTurn::B],
            (Axis::Y, 1, 3) => vec![QuarterTurn::F, QuarterTurn::B],
            (Axis::Y, 2, 0) => vec![QuarterTurn::F, QuarterTurn::F],
            (Axis::Y, 2, 1) => vec![QuarterTurn::F, QuarterTurn::F, QuarterTurn::B3],
            (Axis::Y, 2, 2) => vec![QuarterTurn::F, QuarterTurn::F, QuarterTurn::B, QuarterTurn::B],
            (Axis::Y, 2, 3) => vec![QuarterTurn::F, QuarterTurn::F, QuarterTurn::B],
            (Axis::Y, 3, 0) => vec![QuarterTurn::F3],
            (Axis::Y, 3, 1) => vec![QuarterTurn::F3, QuarterTurn::B3],
            (Axis::Y, 3, 2) => vec![QuarterTurn::F3, QuarterTurn::B, QuarterTurn::B],
            (Axis::Y, 3, 3) => vec![QuarterTurn::F3, QuarterTurn::B],
            (Axis::Z, 0, 1) => vec![QuarterTurn::U3],
            (Axis::Z, 0, 2) => vec![QuarterTurn::U, QuarterTurn::U],
            (Axis::Z, 0, 3) => vec![QuarterTurn::U],
            (Axis::Z, 1, 0) => vec![QuarterTurn::D],
            (Axis::Z, 1, 1) => vec![QuarterTurn::D, QuarterTurn::U3],
            (Axis::Z, 1, 2) => vec![QuarterTurn::D, QuarterTurn::U, QuarterTurn::U],
            (Axis::Z, 1, 3) => vec![QuarterTurn::D, QuarterTurn::U],
            (Axis::Z, 2, 0) => vec![QuarterTurn::D, QuarterTurn::D],
            (Axis::Z, 2, 1) => vec![QuarterTurn::D, QuarterTurn::D, QuarterTurn::U3],
            (Axis::Z, 2, 2) => vec![QuarterTurn::D, QuarterTurn::D, QuarterTurn::U, QuarterTurn::U],
            (Axis::Z, 2, 3) => vec![QuarterTurn::D, QuarterTurn::D, QuarterTurn::U],
            (Axis::Z, 3, 0) => vec![QuarterTurn::D3],
            (Axis::Z, 3, 1) => vec![QuarterTurn::D3, QuarterTurn::U3],
            (Axis::Z, 3, 2) => vec![QuarterTurn::D3, QuarterTurn::U, QuarterTurn::U],
            (Axis::Z, 3, 3) => vec![QuarterTurn::D3, QuarterTurn::U],
            _ => vec![],
        };
        assert(actions@ =~= QuarterTurn::spelling(m));
        actions
    }

    fn all() -> (actions: Vec<QuarterTurn>) {
        let actions = vec![QuarterTurn::L, QuarterTurn::L3, QuarterTurn::R, QuarterTurn::R3, QuarterTurn::U, QuarterTurn::U3, QuarterTurn::D, QuarterTurn::D3, QuarterTurn::F, QuarterTurn::F3, QuarterTurn::B, QuarterTurn::B3];
        assert(actions@ =~= QuarterTurn::vocabulary());
        actions
    }

    fn to_string(&self) -> (text: String) {
        self.name_of().to_owned()
    }

    fn name() -> (label: Vec<u8>) {
        let label = vec![81u8, 117u8, 97u8, 114u8, 116u8, 101u8, 114u8, 84u8, 117u8, 114u8, 110u8];
        assert(label@ =~= QuarterTurn::label());
        label
    }
}

} // verus!
