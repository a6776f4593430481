//! The orientation group of a single cubelet.
//!
//! A cubelet can sit in its slot in 24 orientations. Each orientation is
//! modelled by the permutation of the six faces that it induces: after the
//! rotation, the face `f` of the cubelet shows what `source(f)` showed before.

use vstd::prelude::*;

verus! {

/// The three axes of the cube.
#[derive(Clone, Copy, Debug, PartialEq, Eq, Hash, Structural)]
pub enum Axis {
    X,
    Y,
    Z,
}

/// The faces of the cube.
#[derive(Clone, Copy, Debug, PartialEq, Eq, Structural)]
pub enum Face {
    /// The negative X face
    Left,
    /// The positive X face
    Right,
    /// The negative Y face
    Front,
    /// The positive Y face
    Back,
    /// The negative Z face
    Down,
    /// The positive Z face
    Up,
}

/// The 24 rotations of a cube, each named by a shortest product of quarter
/// turns about the axes: `XY3` is a quarter turn about X followed by three
/// quarter turns about Y.
#[derive(Clone, Copy, Debug, PartialEq, Eq, Hash, Structural)]
pub enum Rotation {
    Neutral,
    X,
    X2,
    X3,
    Y,
    Y2,
    Y3,
    Z,
    Z2,
    Z3,
    XY,
    XY2,
    XY3,
    XZ,
    XZ2,
    XZ3,
    X2Y,
    X2Y3,
    X2Z,
    X2Z3,
    X3Y,
    X3Y3,
    X3Z,
    X3Z3,
}

/// Selects among six values by face, given in the order up, front, left,
/// back, right, down.
pub open spec fn pick<T>(face: Face, up: T, front: T, left: T, back: T, right: T, down: T) -> T {
    match face {
        Face::Up => up,
        Face::Front => front,
        Face::Left => left,
        Face::Back => back,
        Face::Right => right,
        Face::Down => down,
    }
}

impl Rotation {
    /// The face permutation of this rotation: once the rotation is applied,
    /// `face` shows what `source(face)` showed before.
    pub open spec fn source(self, face: Face) -> Face {
        match self {
            Rotation::Neutral => pick(face, Face::Up, Face::Front, Face::Left, Face::Back, Face::Right, Face::Down),
            Rotation::X => pick(face, Face::Back, Face::Up, Face::Left, Face::Down, Face::Right, Face::Front),
            Rotation::X2 => pick(face, Face::Down, Face::Back, Face::Left, Face::Front, Face::Right, Face::Up),
            Rotation::X3 => pick(face, Face::Front, Face::Down, Face::Left, Face::Up, Face::Right, Face::Back),
            Rotation::Y => pick(face, Face::Left, Face::Front, Face::Down, Face::Back, Face::Up, Face::Right),
            Rotation::Y2 => pick(face, Face::Down, Face::Front, Face::Right, Face::Back, Face::Left, Face::Up),
            Rotation::Y3 => pick(face, Face::Right, Face::Front, Face::Up, Face::Back, Face::Down, Face::Left),
            Rotation::Z => pick(face, Face::Up, Face::Left, Face::Back, Face::Right, Face::Front, Face::Down),
            Rotation::Z2 => pick(face, Face::Up, Face::Back, Face::Right, Face::Front, Face::Left, Face::Down),
            Rotation::Z3 => pick(face, Face::Up, Face::Right, Face::Front, Face::Left, Face::Back, Face::Down),
            Rotation::XY => pick(face, Face::Left, Face::Up, Face::Front, Face::Down, Face::Back, Face::Right),
            Rotation::XY2 => pick(face, Face::Front, Face::Up, Face::Right, Face::Down, Face::Left, Face::Back),
            Rotation::XY3 => pick(face, Face::Right, Face::Up, Face::Back, Face::Down, Face::Front, Face::Left),
            Rotation::XZ => pick(face, Face::Back, Face::Left, Face::Down, Face::Right, Face::Up, Face::Front),
            Rotation::XZ2 => pick(face, Face::Back, Face::Down, Face::Right, Face::Up, Face::Left, Face::Front),
            Rotation::XZ3 => pick(face, Face::Back, Face::Right, Face::Up, Face::Left, Face::Down, Face::Front),
            Rotation::X2Y => pick(face, Face::Left, Face::Back, Face::Up, Face::Front, Face::Down, Face::Right),
            Rotation::X2Y3 => pick(face, Face::Right, Face::Back, Face::Down, Face::Front, Face::Up, Face::Left),
            Rotation::X2Z => pick(face, Face::Down, Face::Left, Face::Front, Face::Right, Face::Back, Face::Up),
            Rotation::X2Z3 => pick(face, Face::Down, Face::Right, Face::Back, Face::Left, Face::Front, Face::Up),
            Rotation::X3Y => pick(face, Face::Left, Face::Down, Face::Back, Face::Up, Face::Front, Face::Right),
            Rotation::X3Y3 => pick(face, Face::Right, Face::Down, Face::Front, Face::Up, Face::Back, Face::Left),
            Rotation::X3Z => pick(face, Face::Front, Face::Left, Face::Up, Face::Right, Face::Down, Face::Back),
            Rotation::X3Z3 => pick(face, Face::Front, Face::Right, Face::Down, Face::Left, Face::Up, Face::Back),
        }
    }

    /// The rotation after which the up face shows what `up` showed and the
    /// front face what `front` showed. Two adjacent faces fix a rotation;
    /// for a pair that is not adjacent the result is `Neutral`.
    pub open spec fn from_up_front(up: Face, front: Face) -> Rotation {
        match (up, front) {
            (Face::Up, Face::Front) => Rotation::Neutral,
            (Face::Back, Face::Up) => Rotation::X,
            (Face::Down, Face::Back) => Rotation::X2,
            (Face::Front, Face::Down) => Rotation::X3,
            (Face::Left, Face::Front) => Rotation::Y,
            (Face::Down, Face::Front) => Rotation::Y2,
            (Face::Right, Face::Front) => Rotation::Y3,
            (Face::Up, Face::Left) => Rotation::Z,
            (Face::Up, Face::Back) => Rotation::Z2,
            (Face::Up, Face::Right) => Rotation::Z3,
            (Face::Left, Face::Up) => Rotation::XY,
            (Face::Front, Face::Up) => Rotation::XY2,
            (Face::Right, Face::Up) => Rotation::XY3,
            (Face::Back, Face::Left) => Rotation::XZ,
            (Face::Back, Face::Down) => Rotation::XZ2,
            (Face::Back, Face::Right) => Rotation::XZ3,
            (Face::Left, Face::Back) => Rotation::X2Y,
            (Face::Right, Face::Back) => Rotation::X2Y3,
            (Face::Down, Face::Left) => Rotation::X2Z,
            (Face::Down, Face::Right) => Rotation::X2Z3,
            (Face::Left, Face::Down) => Rotation::X3Y,
            (Face::Right, Face::Down) => Rotation::X3Y3,
            (Face::Front, Face::Left) => Rotation::X3Z,
            (Face::Front, Face::Right) => Rotation::X3Z3,
            _ => Rotation::Neutral,
        }
    }

    /// The product of two rotations: `self` first, then `other`. It is the
    /// rotation whose face permutation is that of `self` after that of
    /// `other`.
    pub open spec fn product(self, other: Rotation) -> Rotation {
        Rotation::from_up_front(
            self.source(other.source(Face::Up)),
            self.source(other.source(Face::Front)),
        )
    }
}

/// A rotation is the one that its up and front faces name.
pub proof fn lemma_rotation_from_sources(r: Rotation)
    ensures
        Rotation::from_up_front(r.source(Face::Up), r.source(Face::Front)) == r,
{
}

/// Every rotation is one of the 24.
proof fn lemma_rotation_cases(r: Rotation)
    ensures
        r == Rotation::Neutral || r == Rotation::X || r == Rotation::X2 || r == Rotation::X3
            || r == Rotation::Y || r == Rotation::Y2 || r == Rotation::Y3 || r == Rotation::Z
            || r == Rotation::Z2 || r == Rotation::Z3 || r == Rotation::XY || r == Rotation::XY2
            || r == Rotation::XY3 || r == Rotation::XZ || r == Rotation::XZ2 || r == Rotation::XZ3
            || r == Rotation::X2Y || r == Rotation::X2Y3 || r == Rotation::X2Z
            || r == Rotation::X2Z3 || r == Rotation::X3Y || r == Rotation::X3Y3
            || r == Rotation::X3Z || r == Rotation::X3Z3,
{
}

/// A shortest way to reach a rotation from `Neutral` by quarter turns: the
/// rotation before the last quarter turn, the axis of that turn, and the
/// number of turns in all.
spec fn last_turn(r: Rotation) -> (Rotation, Axis, nat) {
    match r {
        Rotation::Neutral => (Rotation::Neutral, Axis::X, 0),
        Rotation::X => (Rotation::Neutral, Axis::X, 1),
        Rotation::X2 => (Rotation::X, Axis::X, 2),
        Rotation::X3 => (Rotation::X2, Axis::X, 3),
        Rotation::Y => (Rotation::Neutral, Axis::Y, 1),
        Rotation::Y2 => (Rotation::Y, Axis::Y, 2),
        Rotation::Y3 => (Rotation::Y2, Axis::Y, 3),
        Rotation::Z => (Rotation::Neutral, Axis::Z, 1),
        Rotation::Z2 => (Rotation::Z, Axis::Z, 2),
        Rotation::Z3 => (Rotation::Z2, Axis::Z, 3),
        Rotation::XY => (Rotation::X, Axis::Y, 2),
        Rotation::XY2 => (Rotation::XY, Axis::Y, 3),
        Rotation::XY3 => (Rotation::Z, Axis::X, 2),
        Rotation::XZ => (Rotation::X, Axis::Z, 2),
        Rotation::XZ2 => (Rotation::XZ, Axis::Z, 3),
        Rotation::XZ3 => (Rotation::XZ2, Axis::Z, 4),
        Rotation::X2Y => (Rotation::X2, Axis::Y, 3),
        Rotation::X2Y3 => (Rotation::XZ, Axis::X, 3),
        Rotation::X2Z => (Rotation::X2, Axis::Z, 3),
        Rotation::X2Z3 => (Rotation::Y2, Axis::Z, 3),
        Rotation::X3Y => (Rotation::Y, Axis::Z, 2),
        Rotation::X3Y3 => (Rotation::X2Z, Axis::X, 4),
        Rotation::X3Z => (Rotation::X3, Axis::Z, 4),
        Rotation::X3Z3 => (Rotation::XY2, Axis::Z, 4),
    }
}

/// A quarter turn about an axis.
spec fn quarter(axis: Axis) -> Rotation {
    match axis {
        Axis::X => Rotation::X,
        Axis::Y => Rotation::Y,
        Axis::Z => Rotation::Z,
    }
}

/// The face permutation of a rotation followed by a quarter turn.
#[verifier::rlimit(50)]
proof fn lemma_quarter_source(a: Rotation, axis: Axis, face: Face)
    ensures
        a.product(quarter(axis)).source(face) == a.source(quarter(axis).source(face)),
{
    lemma_rotation_cases(a);
}

/// A rotation is the rotation before its last quarter turn, followed by
/// that turn.
proof fn lemma_last_turn(b: Rotation)
    requires
        b != Rotation::Neutral,
    ensures
        b == last_turn(b).0.product(quarter(last_turn(b).1)),
        last_turn(last_turn(b).0).2 < last_turn(b).2,
{
    lemma_rotation_cases(b);
}

/// The face permutation of a product is the composite of the two
/// permutations.
pub proof fn lemma_product_source(a: Rotation, b: Rotation, face: Face)
    ensures
        a.product(b).source(face) == a.source(b.source(face)),
{
    lemma_product_source_by_turns(a, b, face);
}

/// The same, by induction on the number of quarter turns that make up the
/// second rotation.
proof fn lemma_product_source_by_turns(a: Rotation, b: Rotation, face: Face)
    ensures
        a.product(b).source(face) == a.source(b.source(face)),
    decreases last_turn(b).2,
{
    if b == Rotation::Neutral {
        lemma_rotation_from_sources(a);
    } else {
        let before = last_turn(b).0;
        let turn = quarter(last_turn(b).1);
        lemma_last_turn(b);
        let whole = a.product(before).product(turn);
        assert forall|f: Face| whole.source(f) == a.source(b.source(f)) by {
            lemma_quarter_source(a.product(before), last_turn(b).1, f);
            lemma_product_source_by_turns(a, before, turn.source(f));
            lemma_quarter_source(before, last_turn(b).1, f);
        }
        lemma_rotation_from_sources(whole);
    }
}

impl Rotation {
    /// The position of this rotation in the list of the 24, which is also
    /// its one-byte code.
    pub open spec fn ordinal(self) -> int {
        match self {
            Rotation::Neutral => 0,
            Rotation::X => 1,
            Rotation::X2 => 2,
            Rotation::X3 => 3,
            Rotation::Y => 4,
            Rotation::Y2 => 5,
            Rotation::Y3 => 6,
            Rotation::Z => 7,
            Rotation::Z2 => 8,
            Rotation::Z3 => 9,
            Rotation::XY => 10,
            Rotation::XY2 => 11,
            Rotation::XY3 => 12,
            Rotation::XZ => 13,
            Rotation::XZ2 => 14,
            Rotation::XZ3 => 15,
            Rotation::X2Y => 16,
            Rotation::X2Y3 => 17,
            Rotation::X2Z => 18,
            Rotation::X2Z3 => 19,
            Rotation::X3Y => 20,
            Rotation::X3Y3 => 21,
            Rotation::X3Z => 22,
            Rotation::X3Z3 => 23,
        }
    }

    /// `turns` quarter turns about `axis`, counted modulo four.
    pub open spec fn about(axis: Axis, turns: int) -> Rotation {
        let t = turns % 4;
        if t == 0 {
            Rotation::Neutral
        } else {
            match axis {
                Axis::X => if t == 1 { Rotation::X } else if t == 2 { Rotation::X2 } else { Rotation::X3 },
                Axis::Y => if t == 1 { Rotation::Y } else if t == 2 { Rotation::Y2 } else { Rotation::Y3 },
                Axis::Z => if t == 1 { Rotation::Z } else if t == 2 { Rotation::Z2 } else { Rotation::Z3 },
            }
        }
    }

    /// The face that this rotation carries to `face`.
    pub open spec fn target(self, face: Face) -> Face {
        if self.source(Face::Up) == face {
            Face::Up
        } else if self.source(Face::Front) == face {
            Face::Front
        } else if self.source(Face::Left) == face {
            Face::Left
        } else if self.source(Face::Back) == face {
            Face::Back
        } else if self.source(Face::Right) == face {
            Face::Right
        } else {
            Face::Down
        }
    }

    /// The rotation that undoes this one: its face permutation is the
    /// inverse permutation.
    pub open spec fn inverted(self) -> Rotation {
        Rotation::from_up_front(self.target(Face::Up), self.target(Face::Front))
    }

    /// Whether this rotation turns about a single axis, which is to say
    /// that it keeps a face in place.
    pub open spec fn is_axis_turn(self) -> bool {
        self.source(Face::Left) == Face::Left || self.source(Face::Front) == Face::Front
            || self.source(Face::Up) == Face::Up
    }

    /// Whether two turns are the canonical way to write this rotation as a
    /// product of at most two axis turns: a single turn followed by no turn
    /// about the same axis where one turn is enough, otherwise a turn about
    /// X followed by a turn about Y or Z, a half turn in second place only
    /// after a quarter turn.
    pub open spec fn canonical_parts(self, first: (Axis, u8), second: (Axis, u8)) -> bool {
        &&& Rotation::about(first.0, first.1 as int).product(Rotation::about(second.0, second.1 as int)) == self
        &&& first.1 < 4
        &&& second.1 < 4
        &&& first.1 == 0 ==> first.0 == Axis::X
        &&& second.1 == 0 ==> second.0 == first.0
        &&& self.is_axis_turn() ==> second.1 == 0
        &&& second.1 != 0 ==> first.0 == Axis::X && second.0 != Axis::X && first.1 != 0
        &&& second.1 == 2 ==> first.1 == 1
    }

    /// The two axis turns that the name of a rotation spells.
    pub open spec fn parts(self) -> ((Axis, u8), (Axis, u8)) {
        match self {
            Rotation::Neutral => ((Axis::X, 0), (Axis::X, 0)),
            Rotation::X => ((Axis::X, 1), (Axis::X, 0)),
            Rotation::X2 => ((Axis::X, 2), (Axis::X, 0)),
            Rotation::X3 => ((Axis::X, 3), (Axis::X, 0)),
            Rotation::Y => ((Axis::Y, 1), (Axis::Y, 0)),
            Rotation::Y2 => ((Axis::Y, 2), (Axis::Y, 0)),
            Rotation::Y3 => ((Axis::Y, 3), (Axis::Y, 0)),
            Rotation::Z => ((Axis::Z, 1), (Axis::Z, 0)),
            Rotation::Z2 => ((Axis::Z, 2), (Axis::Z, 0)),
            Rotation::Z3 => ((Axis::Z, 3), (Axis::Z, 0)),
            Rotation::XY => ((Axis::X, 1), (Axis::Y, 1)),
            Rotation::XY2 => ((Axis::X, 1), (Axis::Y, 2)),
            Rotation::XY3 => ((Axis::X, 1), (Axis::Y, 3)),
            Rotation::XZ => ((Axis::X, 1), (Axis::Z, 1)),
            Rotation::XZ2 => ((Axis::X, 1), (Axis::Z, 2)),
            Rotation::XZ3 => ((Axis::X, 1), (Axis::Z, 3)),
            Rotation::X2Y => ((Axis::X, 2), (Axis::Y, 1)),
            Rotation::X2Y3 => ((Axis::X, 2), (Axis::Y, 3)),
            Rotation::X2Z => ((Axis::X, 2), (Axis::Z, 1)),
            Rotation::X2Z3 => ((Axis::X, 2), (Axis::Z, 3)),
            Rotation::X3Y => ((Axis::X, 3), (Axis::Y, 1)),
            Rotation::X3Y3 => ((Axis::X, 3), (Axis::Y, 3)),
            Rotation::X3Z => ((Axis::X, 3), (Axis::Z, 1)),
            Rotation::X3Z3 => ((Axis::X, 3), (Axis::Z, 3)),
        }
    }

    /// The letter that stands for a rotation in text: `A` for `Neutral`
    /// and so on through `X`, in the order of the codes.
    pub open spec fn letter(self) -> u8 {
        (65 + self.ordinal()) as u8
    }

    /// All members of the rotation group, in the order of their codes.
    pub fn variants() -> (all: [Rotation; 24])
        ensures
            forall|i: int| 0 <= i < 24 ==> (#[trigger] all[i]).ordinal() == i,
    {
        [
            Rotation::Neutral, Rotation::X, Rotation::X2, Rotation::X3, Rotation::Y, Rotation::Y2,
            Rotation::Y3, Rotation::Z, Rotation::Z2, Rotation::Z3, Rotation::XY, Rotation::XY2,
            Rotation::XY3, Rotation::XZ, Rotation::XZ2, Rotation::XZ3, Rotation::X2Y, Rotation::X2Y3,
            Rotation::X2Z, Rotation::X2Z3, Rotation::X3Y, Rotation::X3Y3, Rotation::X3Z,
            Rotation::X3Z3,
        ]
    }

    /// The rotations that a single face turn of the cube gives a cubelet:
    /// the nine turns about one axis.
    pub fn generators() -> (all: [Rotation; 9])
        ensures
            forall|i: int| 0 <= i < 9 ==> (#[trigger] all[i]).ordinal() == i + 1,
    {
        [
            Rotation::X, Rotation::X2, Rotation::X3, Rotation::Y, Rotation::Y2, Rotation::Y3,
            Rotation::Z, Rotation::Z2, Rotation::Z3,
        ]
    }

    /// The code of this rotation as an index.
    pub fn into_usize(self) -> (i: usize)
        ensures
            i == self.ordinal(),
            i < 24,
    {
        match self {
            Rotation::Neutral => 0,
            Rotation::X => 1,
            Rotation::X2 => 2,
            Rotation::X3 => 3,
            Rotation::Y => 4,
            Rotation::Y2 => 5,
            Rotation::Y3 => 6,
            Rotation::Z => 7,
            Rotation::Z2 => 8,
            Rotation::Z3 => 9,
            Rotation::XY => 10,
            Rotation::XY2 => 11,
            Rotation::XY3 => 12,
            Rotation::XZ => 13,
            Rotation::XZ2 => 14,
            Rotation::XZ3 => 15,
            Rotation::X2Y => 16,
            Rotation::X2Y3 => 17,
            Rotation::X2Z => 18,
            Rotation::X2Z3 => 19,
            Rotation::X3Y => 20,
            Rotation::X3Y3 => 21,
            Rotation::X3Z => 22,
            Rotation::X3Z3 => 23,
        }
    }

    /// The rotation with the given code; a value of 24 or more has none
    /// and is handed back.
    pub fn from_code(value: u8) -> (r: Result<Rotation, u8>)
        ensures
            value < 24 ==> r is Ok && r->Ok_0.ordinal() == value,
            value >= 24 ==> r == Err::<Rotation, u8>(value),
    {
        match value {
            0 => Ok(Rotation::Neutral),
            1 => Ok(Rotation::X),
            2 => Ok(Rotation::X2),
            3 => Ok(Rotation::X3),
            4 => Ok(Rotation::Y),
            5 => Ok(Rotation::Y2),
            6 => Ok(Rotation::Y3),
            7 => Ok(Rotation::Z),
            8 => Ok(Rotation::Z2),
            9 => Ok(Rotation::Z3),
            10 => Ok(Rotation::XY),
            11 => Ok(Rotation::XY2),
            12 => Ok(Rotation::XY3),
            13 => Ok(Rotation::XZ),
            14 => Ok(Rotation::XZ2),
            15 => Ok(Rotation::XZ3),
            16 => Ok(Rotation::X2Y),
            17 => Ok(Rotation::X2Y3),
            18 => Ok(Rotation::X2Z),
            19 => Ok(Rotation::X2Z3),
            20 => Ok(Rotation::X3Y),
            21 => Ok(Rotation::X3Y3),
            22 => Ok(Rotation::X3Z),
            23 => Ok(Rotation::X3Z3),
            _ => Err(value),
        }
    }

    /// The letter that stands for this rotation in text.
    pub fn to_letter(self) -> (b: u8)
        ensures
            b == self.letter(),
            65 <= b < 89,
    {
        let code = self.into_usize();
        65 + code as u8
    }

    /// The rotation for which a letter stands, if it stands for one.
    pub fn from_letter(b: u8) -> (r: Option<Rotation>)
        ensures
            match r {
                Some(rot) => rot.letter() == b,
                None => forall|rot: Rotation| rot.letter() != b,
            },
    {
        if b < 65 {
            None
        } else {
            match Rotation::from_code(b - 65) {
                Ok(rot) => Some(rot),
                Err(_) => None,
            }
        }
    }

    /// `left` followed by `turns` quarter turns about `axis`.
    pub fn simple_rotation(left: Rotation, axis: Axis, turns: u8) -> (r: Rotation)
        ensures
            r == left.product(Rotation::about(axis, turns as int)),
        decreases turns,
    {
        if turns == 0 {
            proof {
                lemma_product_neutral(left);
            }
            left
        } else {
            let new = match (left, axis) {
                (Rotation::Neutral, Axis::X) => Rotation::X,
                (Rotation::X, Axis::X) => Rotation::X2,
                (Rotation::X2, Axis::X) => Rotation::X3,
                (Rotation::X3, Axis::X) => Rotation::Neutral,
                (Rotation::Y, Axis::X) => Rotation::XZ,
                (Rotation::Y2, Axis::X) => Rotation::XZ2,
                (Rotation::Y3, Axis::X) => Rotation::XZ3,
                (Rotation::Z, Axis::X) => Rotation::XY3,
                (Rotation::Z2, Axis::X) => Rotation::XY2,
                (Rotation::Z3, Axis::X) => Rotation::XY,
                (Rotation::XY, Axis::X) => Rotation::X2Z,
                (Rotation::XY2, Axis::X) => Rotation::Y2,
                (Rotation::XY3, Axis::X) => Rotation::X2Z3,
                (Rotation::XZ, Axis::X) => Rotation::X2Y3,
                (Rotation::XZ2, Axis::X) => Rotation::Z2,
                (Rotation::XZ3, Axis::X) => Rotation::X2Y,
                (Rotation::X2Y, Axis::X) => Rotation::X3Z,
                (Rotation::X2Y3, Axis::X) => Rotation::X3Z3,
                (Rotation::X2Z, Axis::X) => Rotation::X3Y3,
                (Rotation::X2Z3, Axis::X) => Rotation::X3Y,
                (Rotation::X3Y, Axis::X) => Rotation::Z,
                (Rotation::X3Y3, Axis::X) => Rotation::Z3,
                (Rotation::X3Z, Axis::X) => Rotation::Y3,
                (Rotation::X3Z3, Axis::X) => Rotation::Y,
                (Rotation::Neutral, Axis::Y) => Rotation::Y,
                (Rotation::X, Axis::Y) => Rotation::XY,
                (Rotation::X2, Axis::Y) => Rotation::X2Y,
                (Rotation::X3, Axis::Y) => Rotation::X3Y,
                (Rotation::Y, Axis::Y) => Rotation::Y2,
                (Rotation::Y2, Axis::Y) => Rotation::Y3,
                (Rotation::Y3, Axis::Y) => Rotation::Neutral,
                (Rotation::Z, Axis::Y) => Rotation::XZ,
                (Rotation::Z2, Axis::Y) => Rotation::X2Y3,
                (Rotation::Z3, Axis::Y) => Rotation::X3Z3,
                (Rotation::XY, Axis::Y) => Rotation::XY2,
                (Rotation::XY2, Axis::Y) => Rotation::XY3,
                (Rotation::XY3, Axis::Y) => Rotation::X,
                (Rotation::XZ, Axis::Y) => Rotation::X2Z,
                (Rotation::XZ2, Axis::Y) => Rotation::X3Y3,
                (Rotation::XZ3, Axis::Y) => Rotation::Z3,
                (Rotation::X2Y, Axis::Y) => Rotation::Z2,
                (Rotation::X2Y3, Axis::Y) => Rotation::X2,
                (Rotation::X2Z, Axis::Y) => Rotation::X3Z,
                (Rotation::X2Z3, Axis::Y) => Rotation::XZ3,
                (Rotation::X3Y, Axis::Y) => Rotation::XZ2,
                (Rotation::X3Y3, Axis::Y) => Rotation::X3,
                (Rotation::X3Z, Axis::Y) => Rotation::Z,
                (Rotation::X3Z3, Axis::Y) => Rotation::X2Z3,
                (Rotation::Neutral, Axis::Z) => Rotation::Z,
                (Rotation::X, Axis::Z) => Rotation::XZ,
                (Rotation::X2, Axis::Z) => Rotation::X2Z,
                (Rotation::X3, Axis::Z) => Rotation::X3Z,
                (Rotation::Y, Axis::Z) => Rotation::X3Y,
                (Rotation::Y2, Axis::Z) => Rotation::X2Z3,
                (Rotation::Y3, Axis::Z) => Rotation::XY3,
                (Rotation::Z, Axis::Z) => Rotation::Z2,
                (Rotation::Z2, Axis::Z) => Rotation::Z3,
                (Rotation::Z3, Axis::Z) => Rotation::Neutral,
                (Rotation::XY, Axis::Z) => Rotation::Y,
                (Rotation::XY2, Axis::Z) => Rotation::X3Z3,
                (Rotation::XY3, Axis::Z) => Rotation::X2Y3,
                (Rotation::XZ, Axis::Z) => Rotation::XZ2,
                (Rotation::XZ2, Axis::Z) => Rotation::XZ3,
                (Rotation::XZ3, Axis::Z) => Rotation::X,
                (Rotation::X2Y, Axis::Z) => Rotation::XY,
                (Rotation::X2Y3, Axis::Z) => Rotation::X3Y3,
                (Rotation::X2Z, Axis::Z) => Rotation::Y2,
                (Rotation::X2Z3, Axis::Z) => Rotation::X2,
                (Rotation::X3Y, Axis::Z) => Rotation::X2Y,
                (Rotation::X3Y3, Axis::Z) => Rotation::Y3,
                (Rotation::X3Z, Axis::Z) => Rotation::XY2,
                (Rotation::X3Z3, Axis::Z) => Rotation::X3,
            };
            assert(new == left.product(Rotation::about(axis, 1)));
            proof {
                lemma_product_associative(
                    left,
                    Rotation::about(axis, 1),
                    Rotation::about(axis, turns - 1),
                );
                lemma_about_adds(axis, 1, turns - 1);
            }
            Rotation::simple_rotation(new, axis, turns - 1)
        }
    }

    /// The canonical way to write this rotation as two axis turns, the
    /// second of which may be no turn at all.
    pub fn into_parts(self) -> (parts: [(Axis, u8); 2])
        ensures
            (parts[0], parts[1]) == self.parts(),
            self.canonical_parts(parts[0], parts[1]),
    {
        match self {
            Rotation::Neutral => [(Axis::X, 0), (Axis::X, 0)],
            Rotation::X => [(Axis::X, 1), (Axis::X, 0)],
            Rotation::X2 => [(Axis::X, 2), (Axis::X, 0)],
            Rotation::X3 => [(Axis::X, 3), (Axis::X, 0)],
            Rotation::Y => [(Axis::Y, 1), (Axis::Y, 0)],
            Rotation::Y2 => [(Axis::Y, 2), (Axis::Y, 0)],
            Rotation::Y3 => [(Axis::Y, 3), (Axis::Y, 0)],
            Rotation::Z => [(Axis::Z, 1), (Axis::Z, 0)],
            Rotation::Z2 => [(Axis::Z, 2), (Axis::Z, 0)],
            Rotation::Z3 => [(Axis::Z, 3), (Axis::Z, 0)],
            Rotation::XY => [(Axis::X, 1), (Axis::Y, 1)],
            Rotation::XY2 => [(Axis::X, 1), (Axis::Y, 2)],
            Rotation::XY3 => [(Axis::X, 1), (Axis::Y, 3)],
            Rotation::XZ => [(Axis::X, 1), (Axis::Z, 1)],
            Rotation::XZ2 => [(Axis::X, 1), (Axis::Z, 2)],
            Rotation::XZ3 => [(Axis::X, 1), (Axis::Z, 3)],
            Rotation::X2Y => [(Axis::X, 2), (Axis::Y, 1)],
            Rotation::X2Y3 => [(Axis::X, 2), (Axis::Y, 3)],
            Rotation::X2Z => [(Axis::X, 2), (Axis::Z, 1)],
            Rotation::X2Z3 => [(Axis::X, 2), (Axis::Z, 3)],
            Rotation::X3Y => [(Axis::X, 3), (Axis::Y, 1)],
            Rotation::X3Y3 => [(Axis::X, 3), (Axis::Y, 3)],
            Rotation::X3Z => [(Axis::X, 3), (Axis::Z, 1)],
            Rotation::X3Z3 => [(Axis::X, 3), (Axis::Z, 3)],
        }
    }

    /// The product of the two rotations, `self` first.
    pub fn compose(self, other: Rotation) -> (r: Rotation)
        ensures
            r == self.product(other),
    {
        let parts = other.into_parts();
        let (axis, turns) = parts[0];
        let first = Rotation::simple_rotation(self, axis, turns);
        let (axis2, turns2) = parts[1];
        proof {
            lemma_product_associative(
                self,
                Rotation::about(axis, turns as int),
                Rotation::about(axis2, turns2 as int),
            );
        }
        Rotation::simple_rotation(first, axis2, turns2)
    }

    /// The rotation that undoes this one.
    pub fn inverse(self) -> (r: Rotation)
        ensures
            r == self.inverted(),
    {
        match self {
            Rotation::Neutral => Rotation::Neutral,
            Rotation::X => Rotation::X3,
            Rotation::X2 => Rotation::X2,
            Rotation::X3 => Rotation::X,
            Rotation::Y => Rotation::Y3,
            Rotation::Y2 => Rotation::Y2,
            Rotation::Y3 => Rotation::Y,
            Rotation::Z => Rotation::Z3,
            Rotation::Z2 => Rotation::Z2,
            Rotation::Z3 => Rotation::Z,
            Rotation::XY => Rotation::X3Z,
            Rotation::XY2 => Rotation::XY2,
            Rotation::XY3 => Rotation::X3Z3,
            Rotation::XZ => Rotation::X3Y3,
            Rotation::XZ2 => Rotation::XZ2,
            Rotation::XZ3 => Rotation::X3Y,
            Rotation::X2Y => Rotation::X2Y,
            Rotation::X2Y3 => Rotation::X2Y3,
            Rotation::X2Z => Rotation::X2Z,
            Rotation::X2Z3 => Rotation::X2Z3,
            Rotation::X3Y => Rotation::XZ3,
            Rotation::X3Y3 => Rotation::XZ,
            Rotation::X3Z => Rotation::XY,
            Rotation::X3Z3 => Rotation::XY3,
        }
    }

    /// The number of axis turns that it takes to reach this rotation from
    /// `Neutral`: none, one or two.
    pub fn len(&self) -> (n: u8)
        ensures
            n == if *self == Rotation::Neutral {
                0int
            } else if self.is_axis_turn() {
                1int
            } else {
                2int
            },
    {
        match self {
            Rotation::Neutral => 0,
            Rotation::X | Rotation::X2 | Rotation::X3 | Rotation::Y | Rotation::Y2 | Rotation::Y3
            | Rotation::Z | Rotation::Z2 | Rotation::Z3 => 1,
            _ => 2,
        }
    }
}

impl Default for Rotation {
    fn default() -> (r: Rotation)
        ensures
            r == Rotation::Neutral,
    {
        Rotation::Neutral
    }
}

impl vstd::std_specs::convert::TryFromSpecImpl<u8> for Rotation {
    open spec fn obeys_try_from_spec() -> bool {
        true
    }

    open spec fn try_from_spec(v: u8) -> Result<Rotation, u8> {
        if v < 24 {
            Ok(Rotation::of_ordinal(v as int))
        } else {
            Err(v)
        }
    }
}

impl TryFrom<u8> for Rotation {
    type Error = u8;

    /// The rotation with the given code; a value of 24 or more has none
    /// and is handed back.
    fn try_from(value: u8) -> (r: Result<Rotation, u8>) {
        let r = Rotation::from_code(value);
        proof {
            if value < 24 {
                lemma_of_ordinal(r->Ok_0);
            }
        }
        r
    }
}

impl vstd::std_specs::convert::FromSpecImpl<(u8, Axis)> for Rotation {
    open spec fn obeys_from_spec() -> bool {
        true
    }

    open spec fn from_spec(v: (u8, Axis)) -> Rotation {
        Rotation::about(v.1, v.0 as int)
    }
}

impl From<(u8, Axis)> for Rotation {
    /// The rotation of a number of quarter turns, taken modulo four, about
    /// an axis.
    fn from(v: (u8, Axis)) -> (r: Rotation) {
        let (turns, axis) = v;
        match (turns % 4, axis) {
            (0, _) => Rotation::Neutral,
            (1, Axis::X) => Rotation::X,
            (2, Axis::X) => Rotation::X2,
            (_, Axis::X) => Rotation::X3,
            (1, Axis::Y) => Rotation::Y,
            (2, Axis::Y) => Rotation::Y2,
            (_, Axis::Y) => Rotation::Y3,
            (1, Axis::Z) => Rotation::Z,
            (2, Axis::Z) => Rotation::Z2,
            (_, Axis::Z) => Rotation::Z3,
        }
    }
}

/// Turns about one axis add up.
pub proof fn lemma_about_adds(axis: Axis, s: int, t: int)
    requires
        0 <= s,
        0 <= t,
    ensures
        Rotation::about(axis, s).product(Rotation::about(axis, t)) == Rotation::about(axis, s + t),
{
    assert((s + t) % 4 == ((s % 4) + (t % 4)) % 4) by (nonlinear_arith)
        requires
            0 <= s,
            0 <= t,
    ;
}

/// Composition is associative.
pub proof fn lemma_product_associative(a: Rotation, b: Rotation, c: Rotation)
    ensures
        a.product(b).product(c) == a.product(b.product(c)),
{
    let left = a.product(b).product(c);
    let right = a.product(b.product(c));
    assert forall|face: Face| left.source(face) == right.source(face) by {
        lemma_product_source(a.product(b), c, face);
        lemma_product_source(a, b, c.source(face));
        lemma_product_source(a, b.product(c), face);
        lemma_product_source(b, c, face);
    }
    lemma_rotation_from_sources(left);
    lemma_rotation_from_sources(right);
}

/// `Neutral` is an identity on both sides.
pub proof fn lemma_product_neutral(a: Rotation)
    ensures
        a.product(Rotation::Neutral) == a,
        Rotation::Neutral.product(a) == a,
{
    lemma_rotation_from_sources(a);
}

/// A rotation and the one that undoes it cancel on both sides.
pub proof fn lemma_product_inverted(a: Rotation)
    ensures
        a.product(a.inverted()) == Rotation::Neutral,
        a.inverted().product(a) == Rotation::Neutral,
{
    lemma_rotation_cases(a);
}

/// The identity is unique: a rotation that leaves even one rotation
/// unchanged, on either side, is `Neutral`.
pub proof fn lemma_identity_unique(e: Rotation, a: Rotation)
    requires
        a.product(e) == a || e.product(a) == a,
    ensures
        e == Rotation::Neutral,
{
    lemma_product_inverted(a);
    lemma_product_neutral(e);
    if a.product(e) == a {
        lemma_product_associative(a.inverted(), a, e);
    } else {
        lemma_product_associative(e, a, a.inverted());
    }
}

/// The unique facelet colors
#[derive(Clone, Copy, Debug, PartialEq, Eq, Structural)]
pub enum Facelet {
    /// The up face
    White,
    /// The front face
    Green,
    /// The left face
    Orange,
    /// The back face
    Blue,
    /// The right face
    Red,
    /// The down face
    Yellow,
}

/// The sense of a turn.
#[derive(Clone, Copy, Debug, PartialEq, Eq, Structural)]
pub enum Direction {
    Clockwise,
    Counterclockwise,
}

/// A cubelet as it is seen: the color that each of its faces shows.
#[derive(Clone, Copy, Debug, PartialEq, Eq, Structural)]
pub struct Cubelet {
    pub up: Facelet,
    pub front: Facelet,
    pub left: Facelet,
    pub back: Facelet,
    pub right: Facelet,
    pub down: Facelet,
}

/// A face and the color seen on it.
pub type FacePair = (Face, Facelet);

/// The color that a face shows on a cubelet in its home orientation.
pub open spec fn home_color(face: Face) -> Facelet {
    pick(
        face,
        Facelet::White,
        Facelet::Green,
        Facelet::Orange,
        Facelet::Blue,
        Facelet::Red,
        Facelet::Yellow,
    )
}

impl Cubelet {
    /// The color on a face.
    pub open spec fn shows(self, face: Face) -> Facelet {
        pick(face, self.up, self.front, self.left, self.back, self.right, self.down)
    }

    /// The cubelet in its home orientation, turned by `rot`.
    pub open spec fn oriented(rot: Rotation) -> Cubelet {
        Cubelet {
            up: home_color(rot.source(Face::Up)),
            front: home_color(rot.source(Face::Front)),
            left: home_color(rot.source(Face::Left)),
            back: home_color(rot.source(Face::Back)),
            right: home_color(rot.source(Face::Right)),
            down: home_color(rot.source(Face::Down)),
        }
    }

    /// The color on a face.
    pub fn facelet(&self, face: Face) -> (c: Facelet)
        ensures
            c == self.shows(face),
    {
        match face {
            Face::Up => self.up,
            Face::Front => self.front,
            Face::Left => self.left,
            Face::Back => self.back,
            Face::Right => self.right,
            Face::Down => self.down,
        }
    }

    /// The cubelet turned by `rot`: each face of the result shows what the
    /// rotation's source face showed.
    pub fn compose(self, rot: Rotation) -> (r: Cubelet)
        ensures
            forall|face: Face| r.shows(face) == self.shows(rot.source(face)),
    {
        match rot {
            Rotation::Neutral => Cubelet { up: self.up, front: self.front, left: self.left, back: self.back, right: self.right, down: self.down },
            Rotation::X => Cubelet { up: self.back, front: self.up, left: self.left, back: self.down, right: self.right, down: self.front },
            Rotation::X2 => Cubelet { up: self.down, front: self.back, left: self.left, back: self.front, right: self.right, down: self.up },
            Rotation::X3 => Cubelet { up: self.front, front: self.down, left: self.left, back: self.up, right: self.right, down: self.back },
            Rotation::Y => Cubelet { up: self.left, front: self.front, left: self.down, back: self.back, right: self.up, down: self.right },
            Rotation::Y2 => Cubelet { up: self.down, front: self.front, left: self.right, back: self.back, right: self.left, down: self.up },
            Rotation::Y3 => Cubelet { up: self.right, front: self.front, left: self.up, back: self.back, right: self.down, down: self.left },
            Rotation::Z => Cubelet { up: self.up, front: self.left, left: self.back, back: self.right, right: self.front, down: self.down },
            Rotation::Z2 => Cubelet { up: self.up, front: self.back, left: self.right, back: self.front, right: self.left, down: self.down },
            Rotation::Z3 => Cubelet { up: self.up, front: self.right, left: self.front, back: self.left, right: self.back, down: self.down },
            Rotation::XY => Cubelet { up: self.left, front: self.up, left: self.front, back: self.down, right: self.back, down: self.right },
            Rotation::XY2 => Cubelet { up: self.front, front: self.up, left: self.right, back: self.down, right: self.left, down: self.back },
            Rotation::XY3 => Cubelet { up: self.right, front: self.up, left: self.back, back: self.down, right: self.front, down: self.left },
            Rotation::XZ => Cubelet { up: self.back, front: self.left, left: self.down, back: self.right, right: self.up, down: self.front },
            Rotation::XZ2 => Cubelet { up: self.back, front: self.down, left: self.right, back: self.up, right: self.left, down: self.front },
            Rotation::XZ3 => Cubelet { up: self.back, front: self.right, left: self.up, back: self.left, right: self.down, down: self.front },
            Rotation::X2Y => Cubelet { up: self.left, front: self.back, left: self.up, back: self.front, right: self.down, down: self.right },
            Rotation::X2Y3 => Cubelet { up: self.right, front: self.back, left: self.down, back: self.front, right: self.up, down: self.left },
            Rotation::X2Z => Cubelet { up: self.down, front: self.left, left: self.front, back: self.right, right: self.back, down: self.up },
            Rotation::X2Z3 => Cubelet { up: self.down, front: self.right, left: self.back, back: self.left, right: self.front, down: self.up },
            Rotation::X3Y => Cubelet { up: self.left, front: self.down, left: self.back, back: self.up, right: self.front, down: self.right },
            Rotation::X3Y3 => Cubelet { up: self.right, front: self.down, left: self.front, back: self.up, right: self.back, down: self.left },
            Rotation::X3Z => Cubelet { up: self.front, front: self.left, left: self.up, back: self.right, right: self.down, down: self.back },
            Rotation::X3Z3 => Cubelet { up: self.front, front: self.right, left: self.down, back: self.left, right: self.up, down: self.back },
        }
    }

    /// The whole cubelet of which two faces are seen. Where several
    /// orientations fit, the one with the greatest code is taken; where
    /// none fits, `X3Z3`.
    pub fn from_two_facelets(pair1: FacePair, pair2: FacePair) -> (c: Cubelet)
        ensures
            c == Cubelet::oriented(
                match Rotation::fitting(pair1, pair2, 24) {
                    Some(rot) => rot,
                    None => Rotation::X3Z3,
                },
            ),
    {
        let rot = match Rotation::from_two_facelets(&pair1, &pair2) {
            Some(rot) => rot,
            None => Rotation::X3Z3,
        };
        let home = Cubelet::default();
        let c = home.compose(rot);
        proof {
            lemma_home_shows(rot.source(Face::Up));
            lemma_home_shows(rot.source(Face::Front));
            lemma_home_shows(rot.source(Face::Left));
            lemma_home_shows(rot.source(Face::Back));
            lemma_home_shows(rot.source(Face::Right));
            lemma_home_shows(rot.source(Face::Down));
            assert(c.up == c.shows(Face::Up));
            assert(c.front == c.shows(Face::Front));
            assert(c.left == c.shows(Face::Left));
            assert(c.back == c.shows(Face::Back));
            assert(c.right == c.shows(Face::Right));
            assert(c.down == c.shows(Face::Down));
        }
        c
    }
}

impl Default for Cubelet {
    fn default() -> (c: Cubelet)
        ensures
            c == Cubelet::oriented(Rotation::Neutral),
    {
        Cubelet {
            up: Facelet::White,
            front: Facelet::Green,
            left: Facelet::Orange,
            back: Facelet::Blue,
            right: Facelet::Red,
            down: Facelet::Yellow,
        }
    }
}

impl Rotation {
    /// Whether a cubelet turned by this rotation shows the given color on
    /// the given face.
    pub open spec fn fits(self, pair: FacePair) -> bool {
        home_color(self.source(pair.0)) == pair.1
    }

    /// The rotation with the given code, for a code below 24.
    pub open spec fn of_ordinal(i: int) -> Rotation {
        choose|r: Rotation| r.ordinal() == i
    }

    /// The rotation of greatest code below `bound` that fits both pairs.
    pub open spec fn fitting(pair1: FacePair, pair2: FacePair, bound: int) -> Option<Rotation>
        decreases bound,
    {
        if bound <= 0 {
            None
        } else {
            let r = Rotation::of_ordinal(bound - 1);
            if r.fits(pair1) && r.fits(pair2) {
                Some(r)
            } else {
                Rotation::fitting(pair1, pair2, bound - 1)
            }
        }
    }

    /// Find the rotation of a cubelet from the colors seen on two of its
    /// faces: the rotation of greatest code that fits both, if any does.
    pub fn from_two_facelets(pair1: &FacePair, pair2: &FacePair) -> (found: Option<Rotation>)
        ensures
            found == Rotation::fitting(*pair1, *pair2, 24),
    {
        let all = Rotation::variants();
        let mut i: usize = 24;
        while i > 0
            invariant
                i <= 24,
                forall|k: int| 0 <= k < 24 ==> (#[trigger] all[k]).ordinal() == k,
                Rotation::fitting(*pair1, *pair2, 24) == Rotation::fitting(*pair1, *pair2, i as int),
            decreases i,
        {
            let rot = all[i - 1];
            proof {
                lemma_of_ordinal(rot);
            }
            let seen = Cubelet::default().compose(rot);
            proof {
                lemma_home_shows(rot.source(pair1.0));
                lemma_home_shows(rot.source(pair2.0));
            }
            if seen.facelet(pair1.0) == pair1.1 && seen.facelet(pair2.0) == pair2.1 {
                return Some(rot);
            }
            i -= 1;
        }
        None
    }
}

/// The cubelet in its home orientation shows each face's own color.
pub proof fn lemma_home_shows(face: Face)
    ensures
        Cubelet::oriented(Rotation::Neutral).shows(face) == home_color(face),
{
}

/// A rotation is the one that its code names.
pub proof fn lemma_of_ordinal(r: Rotation)
    ensures
        Rotation::of_ordinal(r.ordinal()) == r,
{
    let s = Rotation::of_ordinal(r.ordinal());
    assert(s.ordinal() == r.ordinal());
}

/// Turning a cubelet is an action of the group: to turn by one rotation and
/// by another is to turn by their product.
pub proof fn lemma_cubelet_action(c: Cubelet, a: Rotation, b: Rotation, face: Face)
    ensures
        c.shows(a.source(b.source(face))) == c.shows(a.product(b).source(face)),
{
    lemma_product_source(a, b, face);
}

impl Axis {
    /// The letter of the axis.
    pub open spec fn shown(self) -> Seq<char> {
        match self {
            Axis::X => "X"@,
            Axis::Y => "Y"@,
            Axis::Z => "Z"@,
        }
    }

    /// The letter of the axis.
    pub fn name(&self) -> (text: &'static str)
        ensures
            text@ == self.shown(),
    {
        match self {
            Axis::X => "X",
            Axis::Y => "Y",
            Axis::Z => "Z",
        }
    }
}

impl Rotation {
    /// The name of the rotation.
    pub open spec fn shown(self) -> Seq<char> {
        match self {
            Rotation::Neutral => "Neutral"@,
            Rotation::X => "X"@,
            Rotation::X2 => "X2"@,
            Rotation::X3 => "X3"@,
            Rotation::Y => "Y"@,
            Rotation::Y2 => "Y2"@,
            Rotation::Y3 => "Y3"@,
            Rotation::Z => "Z"@,
            Rotation::Z2 => "Z2"@,
            Rotation::Z3 => "Z3"@,
            Rotation::XY => "XY"@,
            Rotation::XY2 => "XY2"@,
            Rotation::XY3 => "XY3"@,
            Rotation::XZ => "XZ"@,
            Rotation::XZ2 => "XZ2"@,
            Rotation::XZ3 => "XZ3"@,
            Rotation::X2Y => "X2Y"@,
            Rotation::X2Y3 => "X2Y3"@,
            Rotation::X2Z => "X2Z"@,
            Rotation::X2Z3 => "X2Z3"@,
            Rotation::X3Y => "X3Y"@,
            Rotation::X3Y3 => "X3Y3"@,
            Rotation::X3Z => "X3Z"@,
            Rotation::X3Z3 => "X3Z3"@,
        }
    }

    /// The name of the rotation.
    pub fn name(&self) -> (text: &'static str)
        ensures
            text@ == self.shown(),
    {
        match self {
            Rotation::Neutral => "Neutral",
            Rotation::X => "X",
            Rotation::X2 => "X2",
            Rotation::X3 => "X3",
            Rotation::Y => "Y",
            Rotation::Y2 => "Y2",
            Rotation::Y3 => "Y3",
            Rotation::Z => "Z",
            Rotation::Z2 => "Z2",
            Rotation::Z3 => "Z3",
            Rotation::XY => "XY",
            Rotation::XY2 => "XY2",
            Rotation::XY3 => "XY3",
            Rotation::XZ => "XZ",
            Rotation::XZ2 => "XZ2",
            Rotation::XZ3 => "XZ3",
            Rotation::X2Y => "X2Y",
            Rotation::X2Y3 => "X2Y3",
            Rotation::X2Z => "X2Z",
            Rotation::X2Z3 => "X2Z3",
            Rotation::X3Y => "X3Y",
            Rotation::X3Y3 => "X3Y3",
            Rotation::X3Z => "X3Z",
            Rotation::X3Z3 => "X3Z3",
        }
    }
}

} // verus!
