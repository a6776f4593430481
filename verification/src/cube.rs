//! The state of a whole cube: the orientation of each of its twenty movable
//! cubelets, and the face turns that act on it.

use std::marker::PhantomData;
use vstd::prelude::*;

use crate::action::Move;
use crate::codec::{
    codes, is_packing, is_symbol, lemma_packing_unique, lemma_unpack_pack, pack, packing,
    unpack_bits, Packable,
};
use crate::error::ErrorKind;
use crate::cubelet::{
    lemma_about_adds, lemma_of_ordinal, lemma_product_associative, lemma_product_neutral, Axis,
    Rotation,
};

verus! {

/// Marks a cube whose slots are places on the cube.
#[derive(Clone, Copy, Debug, Default, PartialEq, Eq, Hash)]
pub struct Position;

/// Marks a cube whose slots are the cubelets by their home places.
#[derive(Clone, Copy, Debug, Default, PartialEq, Eq, Hash)]
pub struct Id;

/// A Rubik's cube's state, represented by the orientation of the cubelets.
/// Face centers and the core never move and are left out: twenty slots
/// remain, numbered as `slot_coords` lists them.
#[derive(Debug, PartialEq, Eq, Hash)]
pub struct Cube<T> {
    pub cubelets: [Rotation; 20],
    _phantom: PhantomData<T>,
}

impl<T> View for Cube<T> {
    type V = Seq<Rotation>;

    /// The orientations of the twenty cubelets, slot by slot.
    closed spec fn view(&self) -> Seq<Rotation> {
        self.cubelets@
    }
}

impl<T> Clone for Cube<T> {
    fn clone(&self) -> (c: Cube<T>)
        ensures
            c == *self,
    {
        Cube { cubelets: self.cubelets, _phantom: PhantomData }
    }
}

impl<T> Default for Cube<T> {
    /// The solved cube: every cubelet in its home orientation.
    fn default() -> (c: Cube<T>)
        ensures
            c@ == solved(),
    {
        let n = Rotation::Neutral;
        let c = Cube {
            cubelets: [n, n, n, n, n, n, n, n, n, n, n, n, n, n, n, n, n, n, n, n],
            _phantom: PhantomData,
        };
        assert(c@ =~= solved());
        c
    }
}

/// A cube has twenty slots.
pub proof fn lemma_cube_len<T>(cube: Cube<T>)
    ensures
        cube@.len() == 20,
{
}

/// The solved state.
pub open spec fn solved() -> Seq<Rotation> {
    Seq::new(20, |i: int| Rotation::Neutral)
}

/// A place in the 3 by 3 by 3 grid.
pub type Coords = (int, int, int);

/// The grid coordinates of each slot.
pub open spec fn slot_coords(slot: int) -> Coords {
    if slot == 0 {
        (0, 0, 0)
    } else if slot == 1 {
        (0, 0, 1)
    } else if slot == 2 {
        (0, 0, 2)
    } else if slot == 3 {
        (0, 1, 0)
    } else if slot == 4 {
        (0, 1, 2)
    } else if slot == 5 {
        (0, 2, 0)
    } else if slot == 6 {
        (0, 2, 1)
    } else if slot == 7 {
        (0, 2, 2)
    } else if slot == 8 {
        (1, 0, 0)
    } else if slot == 9 {
        (1, 0, 2)
    } else if slot == 10 {
        (1, 2, 0)
    } else if slot == 11 {
        (1, 2, 2)
    } else if slot == 12 {
        (2, 0, 0)
    } else if slot == 13 {
        (2, 0, 1)
    } else if slot == 14 {
        (2, 0, 2)
    } else if slot == 15 {
        (2, 1, 0)
    } else if slot == 16 {
        (2, 1, 2)
    } else if slot == 17 {
        (2, 2, 0)
    } else if slot == 18 {
        (2, 2, 1)
    } else {
        (2, 2, 2)
    }
}

/// Whether a place holds a movable cubelet: it lies in the grid, and at
/// most one of its coordinates is the middle one.
pub open spec fn is_slot(c: Coords) -> bool {
    &&& 0 <= c.0 < 3
    &&& 0 <= c.1 < 3
    &&& 0 <= c.2 < 3
    &&& !(c.0 == 1 && c.1 == 1)
    &&& !(c.0 == 1 && c.2 == 1)
    &&& !(c.1 == 1 && c.2 == 1)
}

/// How many of the 27 places that come before a place in the grid hold no
/// movable cubelet.
pub open spec fn gaps_before(c: Coords) -> int {
    (if c.0 == 0 && c.2 == 2 && c.1 == 1 || c.1 == 2 || c.0 > 0 { 1int } else { 0 })
    + (if c.0 == 1 && (c.2 == 2 || c.1 == 2) || c.0 == 2 { 1int } else { 0 })
    + (if c.0 == 1 && c.1 == 2 || c.0 == 2 { 3int } else { 0 })
    + (if c.0 == 1 && c.1 == 2 && c.2 == 2 || c.0 == 2 { 1int } else { 0 })
    + (if c.0 == 2 && (c.2 == 2 && c.1 == 1 || c.1 == 2) { 1int } else { 0 })
}

/// The slot at a place: its rank among the places that hold a movable
/// cubelet, in the order of the grid.
pub open spec fn slot_at(c: Coords) -> int {
    c.2 + 3 * c.1 + 9 * c.0 - gaps_before(c)
}

/// The coordinates as integers.
pub open spec fn coords_of(c: [u8; 3]) -> Coords {
    (c[0] as int, c[1] as int, c[2] as int)
}

/// Slots and places correspond one to one.
pub proof fn lemma_slot_bijection()
    ensures
        forall|slot: int|
            0 <= slot < 20 ==> is_slot(#[trigger] slot_coords(slot)) && slot_at(slot_coords(slot))
                == slot,
        forall|c: Coords| is_slot(c) ==> 0 <= #[trigger] slot_at(c) < 20 && slot_coords(slot_at(c)) == c,
{
}

/// The slot at a place of the grid that holds a movable cubelet.
pub fn index(c: [u8; 3]) -> (slot: usize)
    requires
        is_slot(coords_of(c)),
    ensures
        slot == slot_at(coords_of(c)),
        slot < 20,
{
    let x = c[0];
    let y = c[1];
    let z = c[2];
    let mut gaps: usize = 0;
    if x == 0 && z == 2 && y == 1 || y == 2 || x > 0 {
        gaps += 1;
    }
    if x == 1 && (z == 2 || y == 2) || x == 2 {
        gaps += 1;
    }
    if x == 1 && y == 2 || x == 2 {
        gaps += 3;
    }
    if x == 1 && y == 2 && z == 2 || x == 2 {
        gaps += 1;
    }
    if x == 2 && (z == 2 && y == 1 || y == 2) {
        gaps += 1;
    }
    z as usize + 3 * y as usize + 9 * x as usize - gaps
}

/// The place of a slot in the grid.
pub fn coords(index: usize) -> (c: [u8; 3])
    requires
        index < 20,
    ensures
        coords_of(c) == slot_coords(index as int),
{
    let all: [[u8; 3]; 20] = [
        [0, 0, 0],
        [0, 0, 1],
        [0, 0, 2],
        [0, 1, 0],
        [0, 1, 2],
        [0, 2, 0],
        [0, 2, 1],
        [0, 2, 2],
        [1, 0, 0],
        [1, 0, 2],
        [1, 2, 0],
        [1, 2, 2],
        [2, 0, 0],
        [2, 0, 1],
        [2, 0, 2],
        [2, 1, 0],
        [2, 1, 2],
        [2, 2, 0],
        [2, 2, 1],
        [2, 2, 2],
    ];
    all[index]
}

/// The coordinate of a place along an axis.
pub open spec fn along(axis: Axis, c: Coords) -> int {
    match axis {
        Axis::X => c.0,
        Axis::Y => c.1,
        Axis::Z => c.2,
    }
}

/// The place from which a quarter turn about an axis brings a cubelet to
/// the place `c`.
pub open spec fn quarter_source(axis: Axis, c: Coords) -> Coords {
    match axis {
        Axis::X => (c.0, c.2, 2 - c.1),
        Axis::Y => (2 - c.2, c.1, c.0),
        Axis::Z => (c.1, 2 - c.0, c.2),
    }
}

/// The place from which `turns` quarter turns about an axis bring a
/// cubelet to the place `c`.
pub open spec fn turn_source(axis: Axis, turns: int, c: Coords) -> Coords {
    let t = turns % 4;
    if t == 0 {
        c
    } else if t == 1 {
        quarter_source(axis, c)
    } else if t == 2 {
        quarter_source(axis, quarter_source(axis, c))
    } else {
        quarter_source(axis, quarter_source(axis, quarter_source(axis, c)))
    }
}

/// The state after the eight cubelets of one face have gone `turns`
/// quarter turns around it, each turned by `rot` on the way. The face is
/// the layer in which the coordinate along `axis` is `face`. Cubelets off
/// that face stay as they are.
#[verifier::opaque]
pub open spec fn face_cycled(s: Seq<Rotation>, axis: Axis, face: int, turns: int, rot: Rotation) -> Seq<Rotation> {
    Seq::new(
        20,
        |slot: int|
            if along(axis, slot_coords(slot)) == face {
                s[slot_at(turn_source(axis, turns, slot_coords(slot)))].product(rot)
            } else {
                s[slot]
            },
    )
}

/// The state after one face has made `turns` quarter turns, counted modulo
/// four: its cubelets go around, and each takes up the rotation that the
/// turn gives it. No turn changes nothing.
pub open spec fn face_turned(s: Seq<Rotation>, axis: Axis, face: int, turns: int) -> Seq<Rotation> {
    if turns % 4 == 0 {
        s
    } else {
        face_cycled(s, axis, face, turns, Rotation::about(axis, turns))
    }
}

/// The state after a move: the turn of the face on the negative side of
/// the axis, and the turn of the face on its positive side.
pub open spec fn moved(s: Seq<Rotation>, m: Move) -> Seq<Rotation> {
    face_turned(face_turned(s, m.0, 0, m.1 as int), m.0, 2, m.2 as int)
}

/// The place from which a quarter turn about an axis brings a cubelet to
/// the place `c`.
fn quarter_from(axis: Axis, c: [u8; 3]) -> (from: [u8; 3])
    requires
        is_slot(coords_of(c)),
    ensures
        coords_of(from) == quarter_source(axis, coords_of(c)),
        is_slot(coords_of(from)),
{
    match axis {
        Axis::X => [c[0], c[2], 2 - c[1]],
        Axis::Y => [2 - c[2], c[1], c[0]],
        Axis::Z => [c[1], 2 - c[0], c[2]],
    }
}

/// The place from which `turns` quarter turns about an axis bring a
/// cubelet to the place `c`.
fn turn_from(axis: Axis, turns: u8, c: [u8; 3]) -> (from: [u8; 3])
    requires
        is_slot(coords_of(c)),
    ensures
        coords_of(from) == turn_source(axis, turns as int, coords_of(c)),
        is_slot(coords_of(from)),
{
    let t = turns % 4;
    if t == 0 {
        c
    } else if t == 1 {
        quarter_from(axis, c)
    } else if t == 2 {
        quarter_from(axis, quarter_from(axis, c))
    } else {
        quarter_from(axis, quarter_from(axis, quarter_from(axis, c)))
    }
}

/// Carries the cubelets of one layer `turns` quarter turns around the
/// axis, and turns each of them by `rot`.
fn cycle_face(cube: Cube<Position>, axis: Axis, face: u8, turns: u8, rot: Rotation) -> (r: Cube<
    Position,
>)
    ensures
        r@ == face_cycled(cube@, axis, face as int, turns as int, rot),
{
    let from = cube.cubelets;
    let mut c = cube.cubelets;
    let mut slot: usize = 0;
    while slot < 20
        invariant
            slot <= 20,
            from@ == cube@,
            forall|k: int|
                0 <= k < slot ==> #[trigger] c@[k] == face_cycled(
                    cube@,
                    axis,
                    face as int,
                    turns as int,
                    rot,
                )[k],
            forall|k: int| slot <= k < 20 ==> #[trigger] c@[k] == cube@[k],
        decreases 20 - slot,
    {
        proof {
            reveal(face_cycled);
            lemma_slot_bijection();
        }
        let place = coords(slot);
        let layer = match axis {
            Axis::X => place[0],
            Axis::Y => place[1],
            Axis::Z => place[2],
        };
        if layer == face {
            let source = index(turn_from(axis, turns, place));
            c[slot] = from[source].compose(rot);
        }
        slot += 1;
    }
    let r = Cube::new(c);
    assert(r@ =~= face_cycled(cube@, axis, face as int, turns as int, rot)) by {
        reveal(face_cycled);
    }
    r
}

/// Carries the cubelets of a layer across the X axis a quarter turn around
/// it, and turns each of them by `rot`.
fn turn_face_x(cube: Cube<Position>, face: u8, rot: Rotation) -> (r: Cube<Position>)
    ensures
        r@ == face_cycled(cube@, Axis::X, face as int, 1, rot),
{
    cycle_face(cube, Axis::X, face, 1, rot)
}

/// Carries the cubelets of a layer across the X axis a half turn around
/// it, and turns each of them by `rot`.
fn turn_face_x2(cube: Cube<Position>, face: u8, rot: Rotation) -> (r: Cube<Position>)
    ensures
        r@ == face_cycled(cube@, Axis::X, face as int, 2, rot),
{
    cycle_face(cube, Axis::X, face, 2, rot)
}

/// Carries the cubelets of a layer across the X axis three quarter turns around
/// it, and turns each of them by `rot`.
fn turn_face_x3(cube: Cube<Position>, face: u8, rot: Rotation) -> (r: Cube<Position>)
    ensures
        r@ == face_cycled(cube@, Axis::X, face as int, 3, rot),
{
    cycle_face(cube, Axis::X, face, 3, rot)
}

/// Carries the cubelets of a layer across the Y axis a quarter turn around
/// it, and turns each of them by `rot`.
fn turn_face_y(cube: Cube<Position>, face: u8, rot: Rotation) -> (r: Cube<Position>)
    ensures
        r@ == face_cycled(cube@, Axis::Y, face as int, 1, rot),
{
    cycle_face(cube, Axis::Y, face, 1, rot)
}

/// Carries the cubelets of a layer across the Y axis a half turn around
/// it, and turns each of them by `rot`.
fn turn_face_y2(cube: Cube<Position>, face: u8, rot: Rotation) -> (r: Cube<Position>)
    ensures
        r@ == face_cycled(cube@, Axis::Y, face as int, 2, rot),
{
    cycle_face(cube, Axis::Y, face, 2, rot)
}

/// Carries the cubelets of a layer across the Y axis three quarter turns around
/// it, and turns each of them by `rot`.
fn turn_face_y3(cube: Cube<Position>, face: u8, rot: Rotation) -> (r: Cube<Position>)
    ensures
        r@ == face_cycled(cube@, Axis::Y, face as int, 3, rot),
{
    cycle_face(cube, Axis::Y, face, 3, rot)
}

/// Carries the cubelets of a layer across the Z axis a quarter turn around
/// it, and turns each of them by `rot`.
fn turn_face_z(cube: Cube<Position>, face: u8, rot: Rotation) -> (r: Cube<Position>)
    ensures
        r@ == face_cycled(cube@, Axis::Z, face as int, 1, rot),
{
    cycle_face(cube, Axis::Z, face, 1, rot)
}

/// Carries the cubelets of a layer across the Z axis a half turn around
/// it, and turns each of them by `rot`.
fn turn_face_z2(cube: Cube<Position>, face: u8, rot: Rotation) -> (r: Cube<Position>)
    ensures
        r@ == face_cycled(cube@, Axis::Z, face as int, 2, rot),
{
    cycle_face(cube, Axis::Z, face, 2, rot)
}

/// Carries the cubelets of a layer across the Z axis three quarter turns around
/// it, and turns each of them by `rot`.
fn turn_face_z3(cube: Cube<Position>, face: u8, rot: Rotation) -> (r: Cube<Position>)
    ensures
        r@ == face_cycled(cube@, Axis::Z, face as int, 3, rot),
{
    cycle_face(cube, Axis::Z, face, 3, rot)
}

impl Cube<Position> {
    /// Turns a face by the axis turn `rot`; `Neutral` leaves the cube as
    /// it is.
    fn turn_face(self, face: u8, rot: Rotation) -> (r: Cube<Position>)
        requires
            rot.ordinal() <= 9,
        ensures
            forall|axis: Axis, turns: int|
                rot == Rotation::about(axis, turns) ==> r@ == face_turned(
                    self@,
                    axis,
                    face as int,
                    turns,
                ),
    {
        let ghost from = self@;
        let r = match rot {
            Rotation::X => turn_face_x(self, face, rot),
            Rotation::X2 => turn_face_x2(self, face, rot),
            Rotation::X3 => turn_face_x3(self, face, rot),
            Rotation::Y => turn_face_y(self, face, rot),
            Rotation::Y2 => turn_face_y2(self, face, rot),
            Rotation::Y3 => turn_face_y3(self, face, rot),
            Rotation::Z => turn_face_z(self, face, rot),
            Rotation::Z2 => turn_face_z2(self, face, rot),
            Rotation::Z3 => turn_face_z3(self, face, rot),
            _ => self,
        };
        proof {
            assert forall|axis: Axis, turns: int| rot == Rotation::about(axis, turns) implies r@
                == face_turned(from, axis, face as int, turns) by {
                if turns % 4 != 0 {
                    lemma_face_cycled_modulo(from, axis, face as int, turns, rot);
                }
            }
        }
        r
    }

    /// Makes a move: turns the face on the negative side of the move's
    /// axis, and the face on its positive side.
    pub fn make_move(self, m: Move) -> (r: Cube<Position>)
        ensures
            r@ == moved(self@, m),
    {
        let Move(axis, rot1, rot2) = m;
        let rot1: Rotation = Rotation::from((rot1, axis));
        let rot2: Rotation = Rotation::from((rot2, axis));
        self.turn_face(0, rot1).turn_face(2, rot2)
    }
}

impl<T> Cube<T> {
    /// The cube with the given orientations in its slots.
    pub fn new(cubelets: [Rotation; 20]) -> (c: Cube<T>)
        ensures
            c@ == cubelets@,
    {
        Cube { cubelets, _phantom: PhantomData }
    }

    /// The orientations of the twenty cubelets, slot by slot.
    pub fn cubelets(&self) -> (c: &[Rotation; 20])
        ensures
            c@ == self@,
    {
        &self.cubelets
    }
}

/// Quarter turns of places add up, keep a place in its layer, and carry
/// slots to slots.
pub proof fn lemma_turn_source_adds(axis: Axis, t1: int, t2: int, c: Coords)
    requires
        is_slot(c),
        0 <= t1,
        0 <= t2,
    ensures
        turn_source(axis, t1, turn_source(axis, t2, c)) == turn_source(axis, t1 + t2, c),
        is_slot(turn_source(axis, t2, c)),
        along(axis, turn_source(axis, t2, c)) == along(axis, c),
{
    assert((t1 + t2) % 4 == ((t1 % 4) + (t2 % 4)) % 4) by (nonlinear_arith)
        requires
            0 <= t1,
            0 <= t2,
    ;
}

/// To carry a layer around twice is to carry it around once by the sum of
/// the turns, with the product of the two rotations.
pub proof fn lemma_face_cycled_twice(
    s: Seq<Rotation>,
    axis: Axis,
    face: int,
    t1: int,
    r1: Rotation,
    t2: int,
    r2: Rotation,
)
    requires
        s.len() == 20,
        0 <= t1,
        0 <= t2,
    ensures
        face_cycled(face_cycled(s, axis, face, t1, r1), axis, face, t2, r2) == face_cycled(
            s,
            axis,
            face,
            t1 + t2,
            r1.product(r2),
        ),
{
    reveal(face_cycled);
    let once = face_cycled(s, axis, face, t1, r1);
    let twice = face_cycled(once, axis, face, t2, r2);
    let sum = face_cycled(s, axis, face, t1 + t2, r1.product(r2));
    lemma_slot_bijection();
    assert forall|slot: int| 0 <= slot < 20 implies twice[slot] == sum[slot] by {
        let c = slot_coords(slot);
        if along(axis, c) == face {
            lemma_turn_source_adds(axis, t1, t2, c);
            let mid = turn_source(axis, t2, c);
            let from = slot_at(turn_source(axis, t1, mid));
            assert(once[slot_at(mid)] == s[from].product(r1));
            lemma_product_associative(s[from], r1, r2);
        }
    }
    assert(twice =~= sum);
}

/// To carry a layer around by a multiple of four quarter turns, turning
/// no cubelet, changes nothing.
pub proof fn lemma_face_cycled_whole(s: Seq<Rotation>, axis: Axis, face: int, turns: int)
    requires
        s.len() == 20,
        turns % 4 == 0,
    ensures
        face_cycled(s, axis, face, turns, Rotation::Neutral) == s,
{
    reveal(face_cycled);
    lemma_slot_bijection();
    assert forall|slot: int| 0 <= slot < 20 implies face_cycled(
        s,
        axis,
        face,
        turns,
        Rotation::Neutral,
    )[slot] == s[slot] by {
        lemma_product_neutral(s[slot]);
    }
    assert(face_cycled(s, axis, face, turns, Rotation::Neutral) =~= s);
}

/// Only the number of quarter turns modulo four counts in carrying a
/// layer around.
pub proof fn lemma_face_cycled_modulo(
    s: Seq<Rotation>,
    axis: Axis,
    face: int,
    turns: int,
    rot: Rotation,
)
    ensures
        face_cycled(s, axis, face, turns, rot) == face_cycled(s, axis, face, turns % 4, rot),
{
    reveal(face_cycled);
    assert((turns % 4) % 4 == turns % 4);
    assert(face_cycled(s, axis, face, turns, rot) =~= face_cycled(s, axis, face, turns % 4, rot));
}

/// A turn of a face keeps the number of slots.
pub proof fn lemma_face_turned_len(s: Seq<Rotation>, axis: Axis, face: int, turns: int)
    requires
        s.len() == 20,
    ensures
        face_turned(s, axis, face, turns).len() == 20,
{
    reveal(face_cycled);
}

/// Turns of one face add up.
pub proof fn lemma_face_turns_add(s: Seq<Rotation>, axis: Axis, face: int, t1: int, t2: int)
    requires
        s.len() == 20,
        0 <= t1,
        0 <= t2,
    ensures
        face_turned(face_turned(s, axis, face, t1), axis, face, t2) == face_turned(
            s,
            axis,
            face,
            t1 + t2,
        ),
{
    assert((t1 + t2) % 4 == ((t1 % 4) + (t2 % 4)) % 4) by (nonlinear_arith)
        requires
            0 <= t1,
            0 <= t2,
    ;
    let once = face_turned(s, axis, face, t1);
    if t1 % 4 == 0 {
        assert(once == s);
        lemma_turns_modulo(s, axis, face, t2);
        lemma_turns_modulo(s, axis, face, t1 + t2);
    } else if t2 % 4 == 0 {
        assert(face_turned(once, axis, face, t2) == once);
        lemma_turns_modulo(s, axis, face, t1);
        lemma_turns_modulo(s, axis, face, t1 + t2);
    } else {
        let r1 = Rotation::about(axis, t1);
        let r2 = Rotation::about(axis, t2);
        assert(once == face_cycled(s, axis, face, t1, r1));
        assert(face_turned(once, axis, face, t2) == face_cycled(once, axis, face, t2, r2));
        lemma_face_cycled_twice(s, axis, face, t1, r1, t2, r2);
        lemma_about_adds(axis, t1, t2);
        if (t1 + t2) % 4 == 0 {
            assert(r1.product(r2) == Rotation::Neutral);
            lemma_face_cycled_whole(s, axis, face, t1 + t2);
        }
    }
}

/// Turns of two different layers across one axis do not meet: the order
/// in which they are made is immaterial.
pub proof fn lemma_face_turns_commute(
    s: Seq<Rotation>,
    axis: Axis,
    face1: int,
    t1: int,
    face2: int,
    t2: int,
)
    requires
        s.len() == 20,
        face1 != face2,
        0 <= t1,
        0 <= t2,
    ensures
        face_turned(face_turned(s, axis, face1, t1), axis, face2, t2) == face_turned(
            face_turned(s, axis, face2, t2),
            axis,
            face1,
            t1,
        ),
{
    reveal(face_cycled);
    let left = face_turned(face_turned(s, axis, face1, t1), axis, face2, t2);
    let right = face_turned(face_turned(s, axis, face2, t2), axis, face1, t1);
    lemma_slot_bijection();
    assert forall|slot: int| 0 <= slot < 20 implies left[slot] == right[slot] by {
        let c = slot_coords(slot);
        lemma_turn_source_adds(axis, 0, t1, c);
        lemma_turn_source_adds(axis, 0, t2, c);
    }
    assert(left =~= right);
}

/// A move that turns nothing changes nothing.
pub proof fn lemma_move_neutral(s: Seq<Rotation>, m: Move)
    requires
        m.is_neutral(),
    ensures
        moved(s, m) == s,
{
}

/// Two moves about one axis, made one after the other, are the one move
/// in which their turns are added.
pub proof fn lemma_moves_merge(s: Seq<Rotation>, m1: Move, m2: Move)
    requires
        s.len() == 20,
        m1.0 == m2.0,
    ensures
        moved(moved(s, m1), m2) == moved(s, m1.merged(m2)),
{
    let axis = m1.0;
    let a = face_turned(s, axis, 0, m1.1 as int);
    lemma_face_turned_len(s, axis, 0, m1.1 as int);
    lemma_face_turned_len(s, axis, 0, m1.1 + m2.1);
    // near, far, near, far: bring the two near turns together
    lemma_face_turns_commute(a, axis, 2, m1.2 as int, 0, m2.1 as int);
    lemma_face_turns_add(s, axis, 0, m1.1 as int, m2.1 as int);
    let near = face_turned(s, axis, 0, m1.1 + m2.1);
    assert(face_turned(a, axis, 0, m2.1 as int) == near);
    lemma_face_turns_add(near, axis, 2, m1.2 as int, m2.2 as int);
    assert(moved(moved(s, m1), m2) == face_turned(near, axis, 2, m1.2 + m2.2));
    lemma_turns_modulo(s, axis, 0, m1.1 + m2.1);
    lemma_turns_modulo(face_turned(s, axis, 0, m1.merged(m2).1 as int), axis, 2, m1.2 + m2.2);
}

/// Only the number of turns modulo four counts.
pub proof fn lemma_turns_modulo(s: Seq<Rotation>, axis: Axis, face: int, turns: int)
    requires
        0 <= turns,
    ensures
        face_turned(s, axis, face, turns) == face_turned(s, axis, face, turns % 4),
{
    reveal(face_cycled);
    assert((turns % 4) % 4 == turns % 4);
    assert(face_cycled(s, axis, face, turns, Rotation::about(axis, turns)) =~= face_cycled(
        s,
        axis,
        face,
        turns % 4,
        Rotation::about(axis, turns % 4),
    ));
}

/// A move followed by the move that undoes it leaves every state as it
/// was.
pub proof fn lemma_move_round_trip(s: Seq<Rotation>, m: Move)
    requires
        s.len() == 20,
    ensures
        moved(moved(s, m), m.inverted()) == s,
{
    let back = m.inverted();
    let both = m.merged(back);
    assert(both.1 == 0 && both.2 == 0);
    lemma_moves_merge(s, m, back);
    lemma_move_neutral(s, both);
}

/// A move keeps the number of slots.
pub proof fn lemma_moved_len(s: Seq<Rotation>, m: Move)
    requires
        s.len() == 20,
    ensures
        moved(s, m).len() == 20,
{
    reveal(face_cycled);
}

/// The place to which a quarter turn of the grid about an axis carries the
/// place `c`, in the sense in which the grid is read when slots are
/// renumbered.
pub open spec fn quarter_shifted(axis: Axis, c: Coords) -> Coords {
    match axis {
        Axis::X => (c.0, c.2, 2 - c.1),
        Axis::Y => (c.2, c.1, 2 - c.0),
        Axis::Z => (c.1, 2 - c.0, c.2),
    }
}

/// The place `c` after `turns` such quarter turns.
pub open spec fn shifted_simple(c: Coords, axis: Axis, turns: nat) -> Coords
    decreases turns,
{
    if turns == 0 {
        c
    } else {
        shifted_simple(quarter_shifted(axis, c), axis, (turns - 1) as nat)
    }
}

/// The place `c` after the two axis turns that spell a rotation.
pub open spec fn shifted(c: Coords, rot: Rotation) -> Coords {
    let (first, second) = rot.parts();
    shifted_simple(shifted_simple(c, first.0, first.1 as nat), second.0, second.1 as nat)
}

/// The orientations renumbered: slot `i` of the result holds what stands
/// at the place to which the `i`-th of `by` carries the place of slot `i`.
pub open spec fn renumbered(s: Seq<Rotation>, by: Seq<Rotation>) -> Seq<Rotation> {
    Seq::new(20, |i: int| s[slot_at(shifted(slot_coords(i), by[i]))])
}

/// The same, each of `by` undone.
pub open spec fn renumbered_back(s: Seq<Rotation>, by: Seq<Rotation>) -> Seq<Rotation> {
    Seq::new(20, |i: int| s[slot_at(shifted(slot_coords(i), by[i].inverted()))])
}

/// The number of axis turns that a rotation takes.
pub open spec fn turns_of(r: Rotation) -> int {
    if r == Rotation::Neutral {
        0
    } else if r.is_axis_turn() {
        1
    } else {
        2
    }
}

/// The number of axis turns that the first `n` orientations take in all.
pub open spec fn turns_in(s: Seq<Rotation>, n: int) -> int
    decreases n,
{
    if n <= 0 {
        0
    } else {
        turns_in(s, n - 1) + turns_of(s[n - 1])
    }
}

/// The twenty letters that spell a state, slot by slot.
pub open spec fn spelled(s: Seq<Rotation>) -> Seq<u8> {
    Seq::new(20, |i: int| s[i].letter())
}

/// Turns of the grid carry slots to slots.
pub proof fn lemma_shifted_simple_slot(c: Coords, axis: Axis, turns: nat)
    requires
        is_slot(c),
    ensures
        is_slot(shifted_simple(c, axis, turns)),
    decreases turns,
{
    if turns > 0 {
        lemma_shifted_simple_slot(quarter_shifted(axis, c), axis, (turns - 1) as nat);
    }
}

/// The place `c` after `turns` quarter turns of the grid about an axis.
fn shift_coords_simple(c: [u8; 3], turn: (Axis, u8)) -> (r: [u8; 3])
    requires
        is_slot(coords_of(c)),
    ensures
        coords_of(r) == shifted_simple(coords_of(c), turn.0, turn.1 as nat),
        is_slot(coords_of(r)),
    decreases turn.1,
{
    let (axis, turns) = turn;
    proof {
        lemma_shifted_simple_slot(coords_of(c), axis, turns as nat);
    }
    if turns == 0 {
        c
    } else {
        let next = match axis {
            Axis::X => [c[0], c[2], 2 - c[1]],
            Axis::Y => [c[2], c[1], 2 - c[0]],
            Axis::Z => [c[1], 2 - c[0], c[2]],
        };
        shift_coords_simple(next, (axis, turns - 1))
    }
}

/// The place `c` after the two axis turns that spell a rotation.
fn shift_coords(c: [u8; 3], rot: Rotation) -> (r: [u8; 3])
    requires
        is_slot(coords_of(c)),
    ensures
        coords_of(r) == shifted(coords_of(c), rot),
        is_slot(coords_of(r)),
{
    let parts = rot.into_parts();
    shift_coords_simple(shift_coords_simple(c, parts[0]), parts[1])
}

/// Renumbers the orientations: slot `i` of the result holds what stands at
/// the place to which `mutations[i]` carries the place of slot `i`.
pub fn shift_forward(cubelets: &[Rotation; 20], mutations: &[Rotation; 20]) -> (r: [Rotation; 20])
    ensures
        r@ == renumbered(cubelets@, mutations@),
{
    let mut r = *cubelets;
    let mut i: usize = 0;
    while i < 20
        invariant
            i <= 20,
            forall|k: int| 0 <= k < i ==> #[trigger] r@[k] == renumbered(cubelets@, mutations@)[k],
        decreases 20 - i,
    {
        proof {
            lemma_slot_bijection();
        }
        r[i] = cubelets[index(shift_coords(coords(i), mutations[i]))];
        i += 1;
    }
    assert(r@ =~= renumbered(cubelets@, mutations@));
    r
}

/// Renumbers the orientations the other way: slot `i` of the result holds
/// what stands at the place to which the inverse of `mutations[i]` carries
/// the place of slot `i`.
pub fn shift_backward(cubelets: &[Rotation; 20], mutations: &[Rotation; 20]) -> (r: [Rotation; 20])
    ensures
        r@ == renumbered_back(cubelets@, mutations@),
{
    let mut r = *cubelets;
    let mut i: usize = 0;
    while i < 20
        invariant
            i <= 20,
            forall|k: int|
                0 <= k < i ==> #[trigger] r@[k] == renumbered_back(cubelets@, mutations@)[k],
        decreases 20 - i,
    {
        proof {
            lemma_slot_bijection();
        }
        r[i] = cubelets[index(shift_coords(coords(i), mutations[i].inverse()))];
        i += 1;
    }
    assert(r@ =~= renumbered_back(cubelets@, mutations@));
    r
}

impl Cube<Position> {
    /// The same cube with its slots numbered by cubelet.
    pub fn by_id(&self, mutations: &[Rotation; 20]) -> (r: Cube<Id>)
        ensures
            r@ == renumbered_back(self@, mutations@),
    {
        Cube::new(shift_backward(&self.cubelets, mutations))
    }
}

impl Cube<Id> {
    /// The same cube with its slots numbered by place.
    pub fn by_position(&self, mutations: &[Rotation; 20]) -> (r: Cube<Position>)
        ensures
            r@ == renumbered(self@, mutations@),
    {
        Cube::new(shift_forward(&self.cubelets, mutations))
    }
}

impl<T> Cube<T> {
    /// The number of axis turns that the orientations of the cubelets
    /// take in all.
    pub fn parity(&self) -> (n: u8)
        ensures
            n == turns_in(self@, 20),
    {
        let mut n: u8 = 0;
        let mut i: usize = 0;
        while i < 20
            invariant
                i <= 20,
                n == turns_in(self@, i as int),
                n <= 2 * i,
            decreases 20 - i,
        {
            n += self.cubelets[i].len();
            i += 1;
        }
        n
    }

    /// The twenty letters that spell the cube, slot by slot.
    pub fn to_text(&self) -> (text: Vec<u8>)
        ensures
            text@ == spelled(self@),
    {
        let mut text: Vec<u8> = Vec::new();
        let mut i: usize = 0;
        while i < 20
            invariant
                i <= 20,
                text@.len() == i,
                forall|k: int| 0 <= k < i ==> #[trigger] text@[k] == self@[k].letter(),
            decreases 20 - i,
        {
            text.push(self.cubelets[i].to_letter());
            i += 1;
        }
        assert(text@ =~= spelled(self@));
        text
    }

    /// Reads a cube from twenty letters. Text of another length, or with
    /// a letter that stands for no rotation, is refused.
    pub fn parse(text: &[u8]) -> (r: Result<Cube<T>, ErrorKind>)
        ensures
            match r {
                Ok(c) => spelled(c@) == text@,
                Err(e) => e == ErrorKind::InvalidEncoding && forall|s: Seq<Rotation>|
                    spelled(s) != text@,
            },
    {
        if text.len() != 20 {
            assert forall|s: Seq<Rotation>| spelled(s) != text@ by {
                assert(spelled(s).len() == 20);
            }
            return Err(ErrorKind::InvalidEncoding);
        }
        let mut c: Cube<T> = Cube::default();
        let mut i: usize = 0;
        while i < 20
            invariant
                i <= 20,
                text@.len() == 20,
                forall|k: int| 0 <= k < i ==> (#[trigger] c@[k]).letter() == text@[k],
                c@.len() == 20,
            decreases 20 - i,
        {
            match Rotation::from_letter(text[i]) {
                Some(rot) => {
                    c.cubelets[i] = rot;
                },
                None => {
                    assert forall|s: Seq<Rotation>| spelled(s) != text@ by {
                        assert(spelled(s)[i as int] == s[i as int].letter());
                    }
                    return Err(ErrorKind::InvalidEncoding);
                },
            }
            i += 1;
        }
        assert(spelled(c@) =~= text@);
        Ok(c)
    }
}

/// Goes through the orientations of a cube, slot by slot.
pub struct CubeletsIter {
    cubelets: [Rotation; 20],
    at: usize,
}

impl CubeletsIter {
    /// The orientations that are yet to come.
    pub closed spec fn remaining(&self) -> Seq<Rotation> {
        if self.at <= 20 {
            self.cubelets@.skip(self.at as int)
        } else {
            Seq::empty()
        }
    }

    /// The next orientation, if there is one left.
    pub fn next(&mut self) -> (r: Option<Rotation>)
        ensures
            match r {
                Some(rot) => old(self).remaining().len() > 0 && rot == old(self).remaining()[0]
                    && final(self).remaining() == old(self).remaining().skip(1),
                None => old(self).remaining().len() == 0 && final(self).remaining()
                    == old(self).remaining(),
            },
    {
        if self.at < 20 {
            let rot = self.cubelets[self.at];
            self.at += 1;
            assert(self.remaining() =~= old(self).remaining().skip(1));
            Some(rot)
        } else {
            None
        }
    }
}

impl<T> Cube<T> {
    /// Goes through the orientations of the cube, slot by slot.
    pub fn iter(&self) -> (it: CubeletsIter)
        ensures
            it.remaining() == self@,
    {
        let it = CubeletsIter { cubelets: self.cubelets, at: 0 };
        assert(it.remaining() =~= self@);
        it
    }
}

impl<T> Cube<T> {
    /// The cube in thirteen bytes: the codes of its orientations, five
    /// bits each, packed.
    pub fn to_packed(&self) -> (bytes: Vec<u8>)
        ensures
            bytes@ == packing(codes(self@), 5),
            is_packing(codes(self@), 5, bytes@),
            bytes@.len() == 13,
    {
        let bytes = pack(self.cubelets.as_slice());
        assert(codes(self@).len() == 20);
        bytes
    }

    /// Reads a cube from the thirteen bytes in which it is packed. Bytes
    /// that are the packing of no cube are refused.
    pub fn from_packed(bytes: &[u8]) -> (r: Result<Cube<T>, ErrorKind>)
        ensures
            match r {
                Ok(c) => is_packing(codes(c@), 5, bytes@),
                Err(e) => e == ErrorKind::InvalidEncoding && forall|s: Seq<Rotation>|
                    s.len() == 20 ==> !is_packing(#[trigger] codes(s), 5, bytes@),
            },
    {
        if bytes.len() != 13 {
            assert forall|s: Seq<Rotation>| s.len() == 20 implies !is_packing(
                #[trigger] codes(s),
                5,
                bytes@,
            ) by {
                assert(codes(s).len() == 20);
            }
            return Err(ErrorKind::InvalidEncoding);
        }
        let symbols = unpack_bits(bytes, 5);
        assert(symbols@.len() == 20);
        let mut c: Cube<T> = Cube::default();
        let mut i: usize = 0;
        while i < 20
            invariant
                i <= 20,
                symbols@.len() == 20,
                crate::codec::is_unpacking(bytes@, 5, symbols@),
                c@.len() == 20,
                forall|k: int| 0 <= k < i ==> (#[trigger] c@[k]).ordinal() == symbols@[k],
            decreases 20 - i,
        {
            match Rotation::from_code(symbols[i]) {
                Ok(rot) => {
                    c.cubelets[i] = rot;
                },
                Err(_) => {
                    assert forall|s: Seq<Rotation>| s.len() == 20 implies !is_packing(
                        #[trigger] codes(s),
                        5,
                        bytes@,
                    ) by {
                        if is_packing(codes(s), 5, bytes@) {
                            lemma_codes_unpacked(s, bytes@, symbols@);
                            assert(codes(s)[i as int] == s[i as int].ordinal());
                        }
                    }
                    return Err(ErrorKind::InvalidEncoding);
                },
            }
            i += 1;
        }
        let again = c.to_packed();
        if !same_key(again.as_slice(), bytes) {
            assert forall|s: Seq<Rotation>| s.len() == 20 implies !is_packing(
                #[trigger] codes(s),
                5,
                bytes@,
            ) by {
                if is_packing(codes(s), 5, bytes@) {
                    lemma_codes_unpacked(s, bytes@, symbols@);
                    assert forall|k: int| 0 <= k < 20 implies s[k] == c@[k] by {
                        assert(codes(s)[k] == s[k].ordinal());
                        lemma_of_ordinal(s[k]);
                        lemma_of_ordinal(c@[k]);
                    }
                    assert(s =~= c@);
                    lemma_packing_unique(codes(s), 5, bytes@);
                }
            }
            return Err(ErrorKind::InvalidEncoding);
        }
        Ok(c)
    }
}

/// The symbols that are read from the packing of a state are the codes of
/// its orientations.
proof fn lemma_codes_unpacked(s: Seq<Rotation>, bytes: Seq<u8>, symbols: Seq<u8>)
    requires
        s.len() == 20,
        is_packing(codes(s), 5, bytes),
        crate::codec::is_unpacking(bytes, 5, symbols),
    ensures
        symbols.len() == 20,
        symbols == codes(s),
{
    <Rotation as Packable>::lemma_codes();
    assert forall|k: int| 0 <= k < codes(s).len() implies is_symbol(#[trigger] codes(s)[k], 5) by {
        assert(s[k].is_packable());
    }
    lemma_unpack_pack(codes(s), 5, bytes, symbols);
    assert(symbols.len() == 20);
    assert(symbols.take(20) =~= symbols);
}

/// Whether two keys are the same bytes.
fn same_key(a: &[u8], b: &[u8]) -> (same: bool)
    ensures
        same == (a@ == b@),
{
    if a.len() != b.len() {
        return false;
    }
    let mut i: usize = 0;
    while i < a.len()
        invariant
            i <= a.len(),
            a@.len() == b@.len(),
            forall|k: int| 0 <= k < i ==> a@[k] == b@[k],
        decreases a.len() - i,
    {
        if a[i] != b[i] {
            return false;
        }
        i += 1;
    }
    assert(a@ =~= b@);
    true
}

} // verus!
