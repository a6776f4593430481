//! Paths: moves made from the solved cube, kept reduced as they are made,
//! with every cube on the way.

use vstd::prelude::*;

use crate::action::Move;
use crate::cube::{
    lemma_move_neutral, lemma_moved_len, lemma_moves_merge, moved, solved, Cube, Position,
};

verus! {

/// The moves of a path and the cubes that they pass through. There is
/// always one cube more than there are moves: the first is the solved
/// cube, and each move leads from one cube to the next.
pub struct CubePath {
    pub moves: Vec<Move>,
    pub cubes: Vec<Cube<Position>>,
}

impl CubePath {
    /// Whether the cubes are those that the moves pass through from the
    /// solved cube.
    pub open spec fn is_well_formed(&self) -> bool {
        &&& self.cubes@.len() == self.moves@.len() + 1
        &&& self.cubes@[0]@ == solved()
        &&& forall|i: int|
            0 <= i < self.moves@.len() ==> (#[trigger] self.cubes@[i + 1])@ == moved(
                self.cubes@[i]@,
                self.moves@[i],
            )
    }

    /// The cube at which the path ends.
    pub open spec fn end(&self) -> Seq<crate::cubelet::Rotation> {
        self.cubes@[self.cubes@.len() - 1]@
    }

    /// The moves of a path after one more move is made: a move about the
    /// axis of the last one is added to it, and both are gone where they
    /// cancel; any other move is put behind.
    pub open spec fn moves_after(moves: Seq<Move>, m: Move) -> Seq<Move> {
        if moves.len() > 0 && moves.last().0 == m.0 {
            let both = moves.last().merged(m);
            if both.1 == 0 && both.2 == 0 {
                moves.drop_last()
            } else {
                moves.drop_last().push(both)
            }
        } else {
            moves.push(m)
        }
    }

    /// Every cube of a well-formed path has twenty slots.
    pub proof fn lemma_cubes_len(&self, i: int)
        requires
            self.is_well_formed(),
            0 <= i < self.cubes@.len(),
        ensures
            self.cubes@[i]@.len() == 20,
        decreases i,
    {
        if i > 0 {
            self.lemma_cubes_len(i - 1);
            assert(self.cubes@[(i - 1) + 1]@ == moved(self.cubes@[i - 1]@, self.moves@[i - 1]));
            lemma_moved_len(self.cubes@[i - 1]@, self.moves@[i - 1]);
        }
    }

    /// Makes a move at the end of the path. The path stays reduced: a
    /// move about the axis of the last one is added to it, and where the
    /// two cancel, both are gone and the path ends one cube earlier.
    pub fn make_move(&mut self, m: Move)
        requires
            old(self).is_well_formed(),
        ensures
            final(self).is_well_formed(),
            final(self).moves@ == CubePath::moves_after(old(self).moves@, m),
            final(self).end() == moved(old(self).end(), m),
    {
        let n = self.moves.len();
        proof {
            self.lemma_cubes_len(n as int);
        }
        if n > 0 && self.moves[n - 1].0 == m.0 {
            let last = self.moves[n - 1];
            let both = Move(last.0, (last.1 % 4 + m.1 % 4) % 4, (last.2 % 4 + m.2 % 4) % 4);
            proof {
                self.lemma_cubes_len(n - 1);
                assert(self.cubes@[(n - 1) + 1]@ == moved(self.cubes@[n - 1]@, last));
                lemma_moves_merge(self.cubes@[n - 1]@, last, m);
            }
            if both.1 == 0 && both.2 == 0 {
                proof {
                    lemma_move_neutral(self.cubes@[n - 1]@, both);
                }
                self.moves.pop();
                self.cubes.pop();
                assert forall|i: int| 0 <= i < self.moves@.len() implies (
                #[trigger] self.cubes@[i + 1])@ == moved(self.cubes@[i]@, self.moves@[i]) by {
                    assert(old(self).cubes@[i + 1]@ == moved(
                        old(self).cubes@[i]@,
                        old(self).moves@[i],
                    ));
                }
            } else {
                let next = self.cubes[n - 1].clone().make_move(both);
                self.moves.pop();
                self.moves.push(both);
                self.cubes.pop();
                self.cubes.push(next);
                assert forall|i: int| 0 <= i < self.moves@.len() implies (
                #[trigger] self.cubes@[i + 1])@ == moved(self.cubes@[i]@, self.moves@[i]) by {
                    if i < n - 1 {
                        assert(old(self).cubes@[i + 1]@ == moved(
                            old(self).cubes@[i]@,
                            old(self).moves@[i],
                        ));
                    }
                }
            }
        } else {
            let next = self.cubes[n].clone().make_move(m);
            self.moves.push(m);
            self.cubes.push(next);
            assert forall|i: int| 0 <= i < self.moves@.len() implies (
            #[trigger] self.cubes@[i + 1])@ == moved(self.cubes@[i]@, self.moves@[i]) by {
                if i < n {
                    assert(old(self).cubes@[i + 1]@ == moved(
                        old(self).cubes@[i]@,
                        old(self).moves@[i],
                    ));
                }
            }
        }
    }
}

impl Default for CubePath {
    /// The path of no moves, at the solved cube.
    fn default() -> (p: CubePath)
        ensures
            p.is_well_formed(),
            p.moves@.len() == 0,
    {
        let mut cubes: Vec<Cube<Position>> = Vec::new();
        cubes.push(Cube::default());
        CubePath { moves: Vec::new(), cubes }
    }
}

} // verus!
