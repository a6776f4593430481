//! Text for the eye: a cube laid out as a grid of the names of its
//! orientations.

use vstd::prelude::*;
use vstd::string::{StrSliceExecFns, StringExecFns};

use crate::cube::{coords_of, index, is_slot, slot_at, Coords, Cube};
use crate::cubelet::Rotation;

verus! {

/// A cube that is shown as a grid: the upper layer, the middle layer and
/// the lower layer, each from the left face around the front to the right
/// and the back, with the colors of the four fixed centers in the middle
/// layer.
pub struct DisplayCube<T>(pub Cube<T>);

/// A run of blanks.
pub open spec fn blanks(n: int) -> Seq<char> {
    Seq::new(
        if n > 0 {
            n as nat
        } else {
            0
        },
        |i: int| ' ',
    )
}

/// A text with blanks behind it up to a width; a text that is wider is
/// left as it is.
pub open spec fn padded(text: Seq<char>, width: int) -> Seq<char> {
    text + blanks(width - text.len())
}

/// The name of the orientation at a place, eight columns wide.
pub open spec fn cell(s: Seq<Rotation>, c: Coords) -> Seq<char> {
    padded(s[slot_at(c)].shown(), 8)
}

/// The grid of a state.
pub open spec fn grid(s: Seq<Rotation>) -> Seq<char> {
    Seq::<char>::empty()
        + cell(s, (0, 2, 2))
        + cell(s, (0, 1, 2))
        + cell(s, (0, 0, 2))
        + cell(s, (1, 0, 2))
        + cell(s, (2, 0, 2))
        + cell(s, (2, 1, 2))
        + cell(s, (2, 2, 2))
        + cell(s, (1, 2, 2))
        + "\n"@
        + cell(s, (0, 2, 1))
        + "O       "@
        + cell(s, (0, 0, 1))
        + "G       "@
        + cell(s, (2, 0, 1))
        + "R       "@
        + cell(s, (2, 2, 1))
        + "B       "@
        + "\n"@
        + cell(s, (0, 2, 0))
        + cell(s, (0, 1, 0))
        + cell(s, (0, 0, 0))
        + cell(s, (1, 0, 0))
        + cell(s, (2, 0, 0))
        + cell(s, (2, 1, 0))
        + cell(s, (2, 2, 0))
        + cell(s, (1, 2, 0))
        + "\n"@
}

/// Puts blanks behind a text until it is `num` characters wide.
pub fn pad_right_to(this: &str, num: u8) -> (text: String)
    ensures
        text@ == padded(this@, num as int),
{
    let mut text = this.to_owned();
    let len = this.unicode_len();
    let mut i: usize = len;
    proof {
        reveal_strlit(" ");
        assert(this@ + blanks(0) =~= this@);
    }
    while i < num as usize
        invariant
            len <= i,
            i <= num || i == len,
            len == this@.len(),
            " "@ == seq![' '],
            text@ == this@ + blanks(i - len),
        decreases num - i,
    {
        text.append(" ");
        assert(blanks(i - len) + seq![' '] =~= blanks(i + 1 - len));
        assert(this@ + blanks(i - len) + seq![' '] =~= this@ + (blanks(i - len) + seq![' ']));
        i += 1;
    }
    assert(blanks(i - len) =~= blanks(num - len));
    text
}

/// Writes the name of the orientation at a place, eight columns wide.
fn push_cell<T>(out: &mut String, cube: &Cube<T>, c: [u8; 3])
    requires
        is_slot(coords_of(c)),
    ensures
        final(out)@ == old(out)@ + cell(cube@, coords_of(c)),
{
    let name = cube.cubelets()[index(c)].name();
    let text = pad_right_to(name, 8);
    out.append(text.as_str());
}

impl<T> DisplayCube<T> {
    /// The grid as text, three lines.
    pub fn to_string(&self) -> (text: String)
        ensures
            text@ == grid(self.0@),
    {
        let mut out = String::new();
        push_cell(&mut out, &self.0, [0, 2, 2]);
        push_cell(&mut out, &self.0, [0, 1, 2]);
        push_cell(&mut out, &self.0, [0, 0, 2]);
        push_cell(&mut out, &self.0, [1, 0, 2]);
        push_cell(&mut out, &self.0, [2, 0, 2]);
        push_cell(&mut out, &self.0, [2, 1, 2]);
        push_cell(&mut out, &self.0, [2, 2, 2]);
        push_cell(&mut out, &self.0, [1, 2, 2]);
        out.append("\n");
        push_cell(&mut out, &self.0, [0, 2, 1]);
        out.append("O       ");
        push_cell(&mut out, &self.0, [0, 0, 1]);
        out.append("G       ");
        push_cell(&mut out, &self.0, [2, 0, 1]);
        out.append("R       ");
        push_cell(&mut out, &self.0, [2, 2, 1]);
        out.append("B       ");
        out.append("\n");
        push_cell(&mut out, &self.0, [0, 2, 0]);
        push_cell(&mut out, &self.0, [0, 1, 0]);
        push_cell(&mut out, &self.0, [0, 0, 0]);
        push_cell(&mut out, &self.0, [1, 0, 0]);
        push_cell(&mut out, &self.0, [2, 0, 0]);
        push_cell(&mut out, &self.0, [2, 1, 0]);
        push_cell(&mut out, &self.0, [2, 2, 0]);
        push_cell(&mut out, &self.0, [1, 2, 0]);
        out.append("\n");
        out
    }
}

} // verus!
