//! Strategies of search: ways to fill a store with the depths of cubes,
//! starting from a cube that the store knows.

use vstd::prelude::*;

use crate::action::{Action, Move};
use crate::cube::{moved, Cube, Position};
use crate::cubelet::{Axis, Rotation};
use crate::book::{lemma_reachable_push, reachable_in};
use crate::cube::solved;
use crate::store::{
    entry_lowered, kept, lemma_lowered_monotone, lemma_lowered_same, lemma_lowered_transitive,
    lowered, on_record, sound_depths, state_code, Store,
};
use crate::word::folded;

verus! {

/// A way to search from a cube. A search only ever files depths: no
/// depth grows, and no cube is forgotten.
pub trait Strategy {
    /// What a search from a cube makes of the depths of a store.
    spec fn explored(
        &self,
        before: Map<u128, u8>,
        cube: Seq<Rotation>,
        after: Map<u128, u8>,
    ) -> bool;

    fn explore(&self, book: &mut Store<Move>, cube: &Cube<Position>)
        requires
            old(book).is_well_formed(),
        ensures
            final(book).is_well_formed(),
            lowered(old(book)@, final(book)@, 0),
            kept(old(book).met(), final(book).met()),
            self.explored(old(book)@, cube@, final(book)@),
    ;
}

/// Whether `verdict` is what some criteria say of a cube at a depth: yes
/// where every one of them says yes, and no where one of them says no.
pub open spec fn admitted<F: Fn(&Cube<Position>, u8) -> bool>(
    criteria: Seq<F>,
    cube: Cube<Position>,
    depth: u8,
    verdict: bool,
) -> bool {
    if verdict {
        forall|i: int|
            0 <= i < criteria.len() ==> call_ensures(#[trigger] criteria[i], (&cube, depth), true)
    } else {
        exists|i: int|
            0 <= i < criteria.len() && call_ensures(#[trigger] criteria[i], (&cube, depth), false)
    }
}

/// What some criteria say of a cube at a depth: whether all of them say
/// yes. They are asked in their order, as far as the first that says no.
pub fn admits<F: Fn(&Cube<Position>, u8) -> bool>(
    criteria: &Vec<F>,
    cube: &Cube<Position>,
    depth: u8,
) -> (verdict: bool)
    requires
        forall|i: int|
            0 <= i < criteria@.len() ==> call_requires(#[trigger] criteria@[i], (cube, depth)),
    ensures
        admitted(criteria@, *cube, depth, verdict),
{
    let mut i: usize = 0;
    while i < criteria.len()
        invariant
            i <= criteria@.len(),
            forall|k: int|
                0 <= k < criteria@.len() ==> call_requires(#[trigger] criteria@[k], (cube, depth)),
            forall|k: int|
                0 <= k < i ==> call_ensures(#[trigger] criteria@[k], (cube, depth), true),
        decreases criteria@.len() - i,
    {
        let criterion = &criteria[i];
        if !criterion(cube, depth) {
            return false;
        }
        i += 1;
    }
    true
}

/// What searches from those of the first `count` of some cubes that are
/// picked, one after the other, make of the depths of a store.
pub open spec fn expanded<S: Strategy>(
    strategy: &S,
    cubes: Seq<Cube<Position>>,
    picks: Seq<bool>,
    count: int,
    before: Map<u128, u8>,
    after: Map<u128, u8>,
) -> bool
    decreases count,
{
    if count <= 0 {
        after == before
    } else {
        let cube = cubes[count - 1]@;
        let picked = picks[count - 1];
        exists|mid: Map<u128, u8>|
            expanded(strategy, cubes, picks, count - 1, before, mid) && #[trigger] expanded_one(
                strategy,
                picked,
                mid,
                cube,
                after,
            )
    }
}

/// What the search from one cube makes of the depths of a store where
/// the cube is picked; where it is not, nothing.
pub open spec fn expanded_one<S: Strategy>(
    strategy: &S,
    picked: bool,
    before: Map<u128, u8>,
    cube: Seq<Rotation>,
    after: Map<u128, u8>,
) -> bool {
    if picked {
        strategy.explored(before, cube, after)
    } else {
        after == before
    }
}

/// One more cube, after searches from the first `count` cubes, makes
/// searches from the first `count + 1`.
pub proof fn lemma_expanded_step<S: Strategy>(
    strategy: &S,
    cubes: Seq<Cube<Position>>,
    picks: Seq<bool>,
    count: int,
    before: Map<u128, u8>,
    mid: Map<u128, u8>,
    after: Map<u128, u8>,
)
    requires
        0 <= count,
        expanded(strategy, cubes, picks, count, before, mid),
        expanded_one(strategy, picks[count], mid, cubes[count]@, after),
    ensures
        expanded(strategy, cubes, picks, count + 1, before, after),
{
    assert(expanded_one(strategy, picks[count + 1 - 1], mid, cubes[count + 1 - 1]@, after));
}

/// Whether the picks are what some criteria say of the cubes of a store,
/// each at its depth.
pub open spec fn picked_by<F: Fn(&Cube<Position>, u8) -> bool>(
    criteria: Seq<F>,
    cubes: Seq<Cube<Position>>,
    depths: Map<u128, u8>,
    picks: Seq<bool>,
) -> bool {
    &&& picks.len() == cubes.len()
    &&& forall|k: int|
        0 <= k < cubes.len() ==> admitted(
            criteria,
            cubes[k],
            depths[state_code(cubes[k]@)],
            #[trigger] picks[k],
        )
}

impl Store<Move> {
    /// Searches, by a strategy, from every cube that the store knows when
    /// the search sets out and of which, at its depth then, all the
    /// criteria say yes, in the order in which the cubes were met.
    /// Without criteria the search goes from every cube.
    pub fn expand<S: Strategy, F: Fn(&Cube<Position>, u8) -> bool>(
        &mut self,
        strategy: &S,
        criteria: Vec<F>,
    )
        requires
            old(self).is_well_formed(),
            forall|i: int, cube: &Cube<Position>, depth: u8|
                0 <= i < criteria@.len() ==> #[trigger] call_requires(
                    criteria@[i],
                    (cube, depth),
                ),
        ensures
            final(self).is_well_formed(),
            lowered(old(self)@, final(self)@, 0),
            kept(old(self).met(), final(self).met()),
            exists|picks: Seq<bool>|
                picked_by(criteria@, old(self).met(), old(self)@, picks) && #[trigger] expanded(
                    strategy,
                    old(self).met(),
                    picks,
                    old(self).met().len() as int,
                    old(self)@,
                    final(self)@,
                ),
    {
        let known = self.len();
        let mut picks: Vec<bool> = Vec::new();
        let mut k: usize = 0;
        while k < known
            invariant
                k <= known,
                known == self.met().len(),
                self.is_well_formed(),
                picks@.len() == k,
                forall|i: int, cube: &Cube<Position>, depth: u8|
                    0 <= i < criteria@.len() ==> #[trigger] call_requires(
                        criteria@[i],
                        (cube, depth),
                    ),
                forall|j: int|
                    0 <= j < k ==> admitted(
                        criteria@,
                        self.met()[j],
                        self@[state_code(self.met()[j]@)],
                        #[trigger] picks@[j],
                    ),
            decreases known - k,
        {
            let cube = self.cube_at(k);
            let depth = match self.get_depth(cube) {
                Some(depth) => depth,
                None => 0,
            };
            assert(self@.contains_key(state_code(self.met()[k as int]@)));
            let verdict = admits(&criteria, cube, depth);
            picks.push(verdict);
            k += 1;
        }
        let mut i: usize = 0;
        proof {
            lemma_lowered_same(self@, 0);
        }
        while i < known
            invariant
                i <= known,
                known == old(self).met().len(),
                picks@.len() == known,
                self.is_well_formed(),
                lowered(old(self)@, self@, 0),
                kept(old(self).met(), self.met()),
                expanded(strategy, old(self).met(), picks@, i as int, old(self)@, self@),
            decreases known - i,
        {
            let ghost before = self@;
            if picks[i] {
                let cube = self.cube_at(i).clone();
                assert(cube@ == old(self).met()[i as int]@);
                strategy.explore(self, &cube);
            }
            proof {
                lemma_lowered_same(before, 0);
                lemma_lowered_transitive(old(self)@, before, self@, 0, 0, 0);
                lemma_expanded_step(
                    strategy,
                    old(self).met(),
                    picks@,
                    i as int,
                    old(self)@,
                    before,
                    self@,
                );
            }
            i += 1;
        }
        proof {
            assert(picked_by(criteria@, old(self).met(), old(self)@, picks@));
        }
    }
}

/// Depth-first brute force search. No move is made about the axis of the
/// move before it, as two such moves are one.
#[derive(Clone, Copy)]
pub struct TreeSearch {
    pub prev_move: Option<Move>,
    pub current_depth: u8,
    pub search_depth: u8,
}

/// The moves that a search tries after a move: all 45 at the start, and
/// then the 30 about the two other axes.
pub open spec fn moves_after(prev: Option<Move>) -> Seq<Move> {
    match prev {
        None => <Move as Action>::vocabulary(),
        Some(m) => match m.0 {
            Axis::X => axis_vocabulary(Axis::Y) + axis_vocabulary(Axis::Z),
            Axis::Y => axis_vocabulary(Axis::X) + axis_vocabulary(Axis::Z),
            Axis::Z => axis_vocabulary(Axis::X) + axis_vocabulary(Axis::Y),
        },
    }
}

/// The 15 moves about one axis that turn something.
pub open spec fn axis_vocabulary(axis: Axis) -> Seq<Move> {
    Seq::new(15, |i: int| Move(axis, ((i + 1) / 4) as u8, ((i + 1) % 4) as u8))
}

/// The 15 moves about one axis, put behind `moves`.
fn push_axis_moves(moves: &mut Vec<Move>, axis: Axis)
    ensures
        final(moves)@ == old(moves)@ + axis_vocabulary(axis),
{
    let all = Move::axis_moves(axis);
    let mut i: usize = 0;
    assert(moves@ =~= old(moves)@ + axis_vocabulary(axis).take(0));
    while i < 15
        invariant
            i <= 15,
            forall|k: int|
                0 <= k < 15 ==> #[trigger] all[k] == Move(
                    axis,
                    ((k + 1) / 4) as u8,
                    ((k + 1) % 4) as u8,
                ),
            moves@ == old(moves)@ + axis_vocabulary(axis).take(i as int),
        decreases 15 - i,
    {
        moves.push(all[i]);
        assert(moves@ =~= old(moves)@ + axis_vocabulary(axis).take(i + 1));
        i += 1;
    }
    assert(axis_vocabulary(axis).take(15) =~= axis_vocabulary(axis));
}

/// The moves that a search tries after a move.
pub fn next_moves(prev: Option<Move>) -> (moves: Vec<Move>)
    ensures
        moves@ == moves_after(prev),
{
    match prev {
        None => Move::all(),
        Some(m) => {
            let mut moves: Vec<Move> = Vec::new();
            match m.0 {
                Axis::X => {
                    push_axis_moves(&mut moves, Axis::Y);
                    push_axis_moves(&mut moves, Axis::Z);
                },
                Axis::Y => {
                    push_axis_moves(&mut moves, Axis::X);
                    push_axis_moves(&mut moves, Axis::Z);
                },
                Axis::Z => {
                    push_axis_moves(&mut moves, Axis::X);
                    push_axis_moves(&mut moves, Axis::Y);
                },
            }
            assert(moves@ =~= moves_after(prev));
            moves
        },
    }
}

/// Whether a depth is news of a state: none is on record for it, or a
/// greater one.
pub open spec fn is_news(depths: Map<u128, u8>, s: Seq<Rotation>, depth: u8) -> bool {
    match on_record(depths, s) {
        Some(known) => depth < known,
        None => true,
    }
}

/// The depths of a store once a depth was filed for a state: the depth is
/// on record where it was news, and nothing has changed where it was not.
pub open spec fn filed(depths: Map<u128, u8>, s: Seq<Rotation>, depth: u8) -> Map<u128, u8> {
    if is_news(depths, s, depth) {
        depths.insert(state_code(s), depth)
    } else {
        depths
    }
}

/// The depths of a store once a tree search from a cube has tried the
/// first `count` of its moves. The cube that a move leads to is filed at
/// one more than `current_depth`; where that was news, the search goes on
/// from it, with all its moves, before the next move is tried. A search
/// that has no moves left changes nothing.
pub open spec fn tree_searched(
    search: TreeSearch,
    depths: Map<u128, u8>,
    cube: Seq<Rotation>,
    count: int,
) -> Map<u128, u8>
    decreases search.search_depth - search.current_depth, count,
{
    if search.current_depth >= search.search_depth || count <= 0 {
        depths
    } else {
        let so_far = tree_searched(search, depths, cube, count - 1);
        let m = moves_after(search.prev_move)[count - 1];
        let depth = (search.current_depth + 1) as u8;
        if is_news(so_far, moved(cube, m), depth) {
            tree_searched(
                TreeSearch {
                    prev_move: Some(m),
                    current_depth: depth,
                    search_depth: search.search_depth,
                },
                filed(so_far, moved(cube, m), depth),
                moved(cube, m),
                moves_after(Some(m)).len() as int,
            )
        } else {
            so_far
        }
    }
}

/// What every tree search does, whatever the store held: a search that
/// has moves left files every cube that one further move leads to, at one
/// more than `current_depth` or at less, and files no depth that is less
/// than that.
pub open spec fn tree_files(
    search: TreeSearch,
    before: Map<u128, u8>,
    cube: Seq<Rotation>,
    after: Map<u128, u8>,
) -> bool {
    search.current_depth < search.search_depth ==> {
        &&& lowered(before, after, search.current_depth + 1)
        &&& forall|i: int|
            0 <= i < moves_after(search.prev_move).len() ==> (on_record(
                after,
                moved(cube, #[trigger] moves_after(search.prev_move)[i]),
            ) matches Some(near) && near <= search.current_depth + 1)
    }
}

impl Strategy for TreeSearch {
    /// The store holds what the search makes of it with all its moves.
    open spec fn explored(
        &self,
        before: Map<u128, u8>,
        cube: Seq<Rotation>,
        after: Map<u128, u8>,
    ) -> bool {
        after == tree_searched(*self, before, cube, moves_after(self.prev_move).len() as int)
    }

    /// Searches from a cube that was reached in `current_depth` moves, as
    /// far as `search_depth` moves. Every cube that one further move
    /// leads to is filed at one more than `current_depth` unless it is
    /// known nearer, and the search goes on from each for which that was
    /// news.
    fn explore(&self, book: &mut Store<Move>, cube: &Cube<Position>)
        ensures
            tree_files(*self, old(book)@, cube@, final(book)@),
            sound_depths::<Move>(old(book)@) && reachable_in::<Move>(
                cube@,
                self.current_depth as int,
            ) ==> sound_depths::<Move>(final(book)@),
        decreases self.search_depth - self.current_depth,
    {
        proof {
            lemma_lowered_same(book@, 0);
        }
        if self.current_depth >= self.search_depth {
            return ;
        }
        let depth = self.current_depth + 1;
        let moves = next_moves(self.prev_move);
        let mut i: usize = 0;
        proof {
            lemma_lowered_same(book@, depth as int);
        }
        while i < moves.len()
            invariant
                i <= moves.len(),
                moves@ == moves_after(self.prev_move),
                depth == self.current_depth + 1,
                self.current_depth < self.search_depth,
                book.is_well_formed(),
                lowered(old(book)@, book@, depth as int),
                kept(old(book).met(), book.met()),
                book@ == tree_searched(*self, old(book)@, cube@, i as int),
                sound_depths::<Move>(old(book)@) && reachable_in::<Move>(
                    cube@,
                    self.current_depth as int,
                ) ==> sound_depths::<Move>(book@),
                forall|k: int|
                    0 <= k < i ==> (book.depth_of(
                        moved(cube@, #[trigger] moves_after(self.prev_move)[k]),
                    ) matches Some(near) && near <= depth),
            decreases moves.len() - i,
        {
            let m = moves[i];
            let new_cube = cube.clone().make_move(m);
            let ghost before = book@;
            proof {
                if reachable_in::<Move>(cube@, self.current_depth as int) {
                    lemma_reachable_push::<Move>(cube@, self.current_depth as int, m);
                }
            }
            let news = match book.insert_cube(&new_cube, depth) {
                Some(old_depth) => depth < old_depth,
                None => true,
            };
            let ghost put = book@;
            proof {
                lemma_lowered_same(put, depth as int);
                assert(news == is_news(before, new_cube@, depth));
                assert(put == filed(before, new_cube@, depth));
            }
            if news {
                let further = TreeSearch {
                    prev_move: Some(m),
                    current_depth: depth,
                    search_depth: self.search_depth,
                };
                further.explore(book, &new_cube);
                proof {
                    if depth < self.search_depth {
                        lemma_lowered_transitive(
                            put,
                            put,
                            book@,
                            depth as int,
                            depth + 1,
                            depth as int,
                        );
                    }
                }
            }
            proof {
                lemma_lowered_transitive(before, put, book@, depth as int, depth as int, depth as int);
                lemma_lowered_transitive(
                    old(book)@,
                    before,
                    book@,
                    depth as int,
                    depth as int,
                    depth as int,
                );
                assert forall|k: int| 0 <= k < i + 1 implies (book.depth_of(
                    moved(cube@, #[trigger] moves_after(self.prev_move)[k]),
                ) matches Some(near) && near <= depth) by {
                    let s = moved(cube@, moves_after(self.prev_move)[k]);
                    lemma_lowered_monotone(before, book@, depth as int, state_code(s));
                    lemma_lowered_monotone(put, book@, depth as int, state_code(s));
                }
            }
            i += 1;
        }
        proof {
            lemma_lowered_transitive(old(book)@, old(book)@, book@, 0, depth as int, 0);
        }
    }
}

/// Updates all nearby cubes with more appropriate depth values: from a
/// cube that the store knows, every cube next to it is filed at one more
/// than its depth, and so on from each for which that was news.
#[derive(Clone, Copy)]
pub struct Update;

impl Strategy for Update {
    /// From a cube that is on record, at a depth below 255, every cube
    /// next to it is filed at one more than its depth or at less, and no
    /// depth is filed that is less than that. From any other cube nothing
    /// is done.
    open spec fn explored(
        &self,
        before: Map<u128, u8>,
        cube: Seq<Rotation>,
        after: Map<u128, u8>,
    ) -> bool {
        if on_record(before, cube) is Some && on_record(before, cube)->Some_0 < 255 {
            &&& lowered(before, after, on_record(before, cube)->Some_0 + 1)
            &&& forall|i: int|
                0 <= i < <Move as Action>::vocabulary().len() ==> (on_record(
                    after,
                    moved(cube, (#[trigger] <Move as Action>::vocabulary()[i]).as_move()),
                ) matches Some(near) && near <= on_record(before, cube)->Some_0 + 1)
        } else {
            after == before
        }
    }

    fn explore(&self, book: &mut Store<Move>, cube: &Cube<Position>) {
        proof {
            lemma_lowered_same(book@, 0);
        }
        match book.get_depth(cube) {
            Some(depth) => {
                if depth < 255 {
                    book.relax_neighbors(cube, depth);
                    proof {
                        lemma_lowered_transitive(old(book)@, old(book)@, book@, 0, depth + 1, 0);
                    }
                }
            },
            None => {},
        }
    }
}

/// Where the search of one job starts: the cube that the moves of the job
/// lead to, the number of those moves, and the last of them.
pub struct Start {
    pub cube: Cube<Position>,
    pub depth: u8,
    pub last_move: Option<Move>,
}

/// Depth-first search by jobs. Each job is a list of first moves, from
/// the end of which a `TreeSearch` searches; the jobs do not depend on one
/// another, and may be searched side by side, each in a store of its own.
pub struct MultiTree {
    pub search_depth: u8,
    pub jobs: Vec<Vec<Move>>,
}

/// The depths of a store once the cubes that the first `count` moves of a
/// job lead to, one after the other from a cube, were filed, each at the
/// number of moves that lead to it.
pub open spec fn job_filed(
    depths: Map<u128, u8>,
    cube: Seq<Rotation>,
    job: Seq<Move>,
    count: int,
) -> Map<u128, u8>
    decreases count,
{
    if count <= 0 {
        depths
    } else {
        filed(
            job_filed(depths, cube, job, count - 1),
            folded(cube, job.take(count)),
            count as u8,
        )
    }
}

impl MultiTree {
    /// Makes the moves of a job from a cube, files every cube on the way
    /// at the number of moves that lead to it, and gives the place from
    /// which the search of the job starts. A job of more than 255 moves
    /// is cut off there.
    pub fn start_of(job: &Vec<Move>, book: &mut Store<Move>, cube: &Cube<Position>) -> (start:
        Start)
        requires
            old(book).is_well_formed(),
        ensures
            final(book).is_well_formed(),
            lowered(old(book)@, final(book)@, 1),
            kept(old(book).met(), final(book).met()),
            start.depth == if job@.len() <= 255 {
                job@.len()
            } else {
                255
            },
            start.cube@ == folded(cube@, job@.take(start.depth as int)),
            start.last_move == if start.depth == 0 {
                None
            } else {
                Some(job@[start.depth - 1])
            },
            start.depth > 0 ==> (final(book).depth_of(start.cube@) matches Some(known) && known
                <= start.depth),
            final(book)@ == job_filed(old(book)@, cube@, job@, start.depth as int),
            sound_depths::<Move>(old(book)@) && cube@ == solved() ==> sound_depths::<Move>(
                final(book)@,
            ) && reachable_in::<Move>(start.cube@, start.depth as int),
    {
        let mut at = cube.clone();
        let mut depth: u8 = 0;
        let mut last_move: Option<Move> = None;
        let mut i: usize = 0;
        proof {
            lemma_lowered_same(book@, 1);
            assert(job@.take(0) =~= Seq::<Move>::empty());
            crate::book::lemma_reachable_solved::<Move>();
        }
        while i < job.len() && depth < 255
            invariant
                i <= job@.len(),
                i == depth,
                book.is_well_formed(),
                lowered(old(book)@, book@, 1),
                kept(old(book).met(), book.met()),
                sound_depths::<Move>(old(book)@) && cube@ == solved() ==> sound_depths::<Move>(
                    book@,
                ) && reachable_in::<Move>(at@, depth as int),
                at@ == folded(cube@, job@.take(i as int)),
                last_move == if i == 0 {
                    None
                } else {
                    Some(job@[i - 1])
                },
                i > 0 ==> (book.depth_of(at@) matches Some(known) && known <= depth),
                book@ == job_filed(old(book)@, cube@, job@, i as int),
            decreases job@.len() - i,
        {
            let m = job[i];
            let ghost before = book@;
            proof {
                assert(job@.take(i as int).push(m) =~= job@.take(i + 1));
                crate::word::lemma_folded_push(cube@, job@.take(i as int), m);
                if reachable_in::<Move>(at@, depth as int) {
                    lemma_reachable_push::<Move>(at@, depth as int, m);
                }
            }
            at = at.make_move(m);
            depth += 1;
            book.insert_cube(&at, depth);
            last_move = Some(m);
            proof {
                lemma_lowered_transitive(before, before, book@, 1, depth as int, 1);
                lemma_lowered_transitive(old(book)@, before, book@, 1, 1, 1);
            }
            i += 1;
        }
        Start { cube: at, depth, last_move }
    }

    /// The search that starts at the end of a job: a `TreeSearch` that has
    /// made the last move of the job, and as many moves as the job has.
    pub open spec fn search_from(&self, start: Start) -> TreeSearch {
        TreeSearch {
            prev_move: start.last_move,
            current_depth: start.depth,
            search_depth: self.search_depth,
        }
    }

    /// The search of one job from its start, in the given store: what the
    /// `TreeSearch` from the start makes of the store.
    pub fn search_job(&self, start: &Start, book: &mut Store<Move>)
        requires
            old(book).is_well_formed(),
        ensures
            final(book).is_well_formed(),
            lowered(old(book)@, final(book)@, 0),
            kept(old(book).met(), final(book).met()),
            self.search_from(*start).explored(old(book)@, start.cube@, final(book)@),
            tree_files(self.search_from(*start), old(book)@, start.cube@, final(book)@),
            sound_depths::<Move>(old(book)@) && reachable_in::<Move>(
                start.cube@,
                start.depth as int,
            ) ==> sound_depths::<Move>(final(book)@),
    {
        let tree = TreeSearch {
            prev_move: start.last_move,
            current_depth: start.depth,
            search_depth: self.search_depth,
        };
        tree.explore(book, &start.cube);
    }
}

/// The number of moves of a job that count: all of them, or the first
/// 255 of more.
pub open spec fn job_depth(job: Seq<Move>) -> int {
    if job.len() <= 255 {
        job.len() as int
    } else {
        255
    }
}

/// The cube at the end of a job that sets out from a cube.
pub open spec fn job_end(job: Seq<Move>, cube: Seq<Rotation>) -> Seq<Rotation> {
    folded(cube, job.take(job_depth(job)))
}

/// The last move of a job, if it has one.
pub open spec fn job_last(job: Seq<Move>) -> Option<Move> {
    if job_depth(job) == 0 {
        None
    } else {
        Some(job[job_depth(job) - 1])
    }
}

/// The depths of a store once the first `count` of some jobs were
/// searched from a cube, one after the other: the cubes on the way of a
/// job are filed, and a tree is searched from its end.
pub open spec fn jobs_searched(
    search_depth: u8,
    jobs: Seq<Vec<Move>>,
    depths: Map<u128, u8>,
    cube: Seq<Rotation>,
    count: int,
) -> Map<u128, u8>
    decreases count,
{
    if count <= 0 {
        depths
    } else {
        let job = jobs[count - 1]@;
        tree_searched(
            TreeSearch {
                prev_move: job_last(job),
                current_depth: job_depth(job) as u8,
                search_depth,
            },
            job_filed(
                jobs_searched(search_depth, jobs, depths, cube, count - 1),
                cube,
                job,
                job_depth(job),
            ),
            job_end(job, cube),
            moves_after(job_last(job)).len() as int,
        )
    }
}

/// Whether a job has been searched from a cube: the cube at the end of
/// the job is on record at no more than the number of its moves, and
/// where the search has moves left, so is every cube that one further
/// move leads to, at no more than one more.
pub open spec fn job_searched(
    search_depth: u8,
    job: Seq<Move>,
    cube: Seq<Rotation>,
    after: Map<u128, u8>,
) -> bool {
    &&& job_depth(job) > 0 ==> (on_record(after, job_end(job, cube)) matches Some(known) && known
        <= job_depth(job))
    &&& job_depth(job) < search_depth ==> forall|k: int|
        0 <= k < moves_after(job_last(job)).len() ==> (on_record(
            after,
            moved(job_end(job, cube), #[trigger] moves_after(job_last(job))[k]),
        ) matches Some(near) && near <= job_depth(job) + 1)
}

/// A job that has been searched stays searched while depths are filed.
pub proof fn lemma_job_searched_kept(
    search_depth: u8,
    job: Seq<Move>,
    cube: Seq<Rotation>,
    before: Map<u128, u8>,
    after: Map<u128, u8>,
    floor: int,
)
    requires
        job_searched(search_depth, job, cube, before),
        lowered(before, after, floor),
    ensures
        job_searched(search_depth, job, cube, after),
{
    let from = job_end(job, cube);
    let last = job_last(job);
    lemma_lowered_monotone(before, after, floor, state_code(from));
    if job_depth(job) < search_depth {
        assert forall|k: int| 0 <= k < moves_after(last).len() implies (on_record(
            after,
            moved(from, #[trigger] moves_after(last)[k]),
        ) matches Some(near) && near <= job_depth(job) + 1) by {
            lemma_lowered_monotone(
                before,
                after,
                floor,
                state_code(moved(from, moves_after(last)[k])),
            );
        }
    }
}

impl Strategy for MultiTree {
    /// The store holds what the searches of all the jobs, one after the
    /// other, make of it.
    open spec fn explored(
        &self,
        before: Map<u128, u8>,
        cube: Seq<Rotation>,
        after: Map<u128, u8>,
    ) -> bool {
        after == jobs_searched(
            self.search_depth,
            self.jobs@,
            before,
            cube,
            self.jobs@.len() as int,
        )
    }

    /// Searches the jobs one after the other in one store. Whatever the
    /// store held, every job has then been searched from the cube, and no
    /// depth has been filed that is less than 1.
    fn explore(&self, book: &mut Store<Move>, cube: &Cube<Position>)
        ensures
            lowered(old(book)@, final(book)@, 1),
            forall|i: int|
                0 <= i < self.jobs@.len() ==> job_searched(
                    self.search_depth,
                    (#[trigger] self.jobs@[i])@,
                    cube@,
                    final(book)@,
                ),
    {
        let mut i: usize = 0;
        proof {
            lemma_lowered_same(book@, 0);
            lemma_lowered_same(book@, 1);
        }
        while i < self.jobs.len()
            invariant
                i <= self.jobs.len(),
                book.is_well_formed(),
                lowered(old(book)@, book@, 0),
                lowered(old(book)@, book@, 1),
                book@ == jobs_searched(self.search_depth, self.jobs@, old(book)@, cube@, i as int),
                kept(old(book).met(), book.met()),
                forall|k: int|
                    0 <= k < i ==> job_searched(
                        self.search_depth,
                        (#[trigger] self.jobs@[k])@,
                        cube@,
                        book@,
                    ),
            decreases self.jobs.len() - i,
        {
            let ghost before = book@;
            let start = MultiTree::start_of(&self.jobs[i], book, cube);
            let ghost started = book@;
            self.search_job(&start, book);
            proof {
                lemma_lowered_transitive(before, started, book@, 1, 0, 0);
                lemma_lowered_transitive(old(book)@, before, book@, 0, 0, 0);
                lemma_lowered_same(started, 1);
                if start.depth < self.search_depth {
                    lemma_lowered_transitive(started, started, book@, 1, start.depth + 1, 1);
                }
                lemma_lowered_transitive(before, started, book@, 1, 1, 1);
                lemma_lowered_transitive(old(book)@, before, book@, 1, 1, 1);
                assert forall|k: int| 0 <= k < i + 1 implies job_searched(
                    self.search_depth,
                    (#[trigger] self.jobs@[k])@,
                    cube@,
                    book@,
                ) by {
                    if k < i {
                        lemma_job_searched_kept(
                            self.search_depth,
                            self.jobs@[k]@,
                            cube@,
                            before,
                            book@,
                            0,
                        );
                    } else {
                        lemma_lowered_monotone(started, book@, 0, state_code(start.cube@));
                    }
                }
            }
            i += 1;
        }
    }
}

/// A turn of either kind.
#[derive(Clone, Copy)]
pub enum BranchType {
    Axis(Axis),
    Move(Move),
}

/// A pruned `TreeSearch` strategy which only considers paths that follow the
/// order of a sequence of axes.
pub struct PartialTree {
    pub axes: Vec<Axis>,
    pub current_depth: u8,
}

/// The depths of a store once a search along some axes, from the
/// `from`-th on, has tried the first `count` moves about that axis, from a
/// cube that was reached in `depth` moves. The cube that a move leads to
/// is filed at one more than `depth`; where that was news, the search
/// goes on from it along the axes that follow, before the next move is
/// tried. Where no axis is left, or the depth is at 255, nothing is done.
pub open spec fn axes_searched(
    axes: Seq<Axis>,
    from: int,
    depth: u8,
    depths: Map<u128, u8>,
    cube: Seq<Rotation>,
    count: int,
) -> Map<u128, u8>
    decreases axes.len() - from, count,
{
    if from < 0 || from >= axes.len() || depth == 255 || count <= 0 {
        depths
    } else {
        let so_far = axes_searched(axes, from, depth, depths, cube, count - 1);
        let next = moved(cube, axis_vocabulary(axes[from])[count - 1]);
        let deeper = (depth + 1) as u8;
        if is_news(so_far, next, deeper) {
            axes_searched(axes, from + 1, deeper, filed(so_far, next, deeper), next, 15)
        } else {
            so_far
        }
    }
}

/// What every search along some axes does, whatever the store held:
/// every cube that one move about the first of the axes leads to is
/// filed at one more than `depth` or at less, and no depth is filed that
/// is less than that.
pub open spec fn searched_along(
    axes: Seq<Axis>,
    from: int,
    depth: u8,
    before: Map<u128, u8>,
    cube: Seq<Rotation>,
    after: Map<u128, u8>,
) -> bool {
    from < axes.len() && depth < 255 ==> {
        &&& lowered(before, after, depth + 1)
        &&& forall|i: int|
            0 <= i < 15 ==> (on_record(
                after,
                moved(cube, #[trigger] axis_vocabulary(axes[from])[i]),
            ) matches Some(near) && near <= depth + 1)
    }
}

impl PartialTree {
    /// Searches along the axes from the `from`-th on, from a cube that
    /// was reached in `depth` moves.
    fn explore_from(&self, from: usize, depth: u8, book: &mut Store<Move>, cube: &Cube<Position>)
        requires
            old(book).is_well_formed(),
            from <= self.axes@.len(),
        ensures
            final(book).is_well_formed(),
            lowered(old(book)@, final(book)@, 0),
            kept(old(book).met(), final(book).met()),
            final(book)@ == axes_searched(self.axes@, from as int, depth, old(book)@, cube@, 15),
            searched_along(self.axes@, from as int, depth, old(book)@, cube@, final(book)@),
        decreases self.axes@.len() - from,
    {
        proof {
            lemma_lowered_same(book@, 0);
        }
        if from >= self.axes.len() || depth == 255 {
            return ;
        }
        let moves = Move::axis_moves(self.axes[from]);
        let n = self.axes.len();
        let mut i: usize = 0;
        proof {
            lemma_lowered_same(book@, depth + 1);
        }
        while i < 15
            invariant
                i <= 15,
                depth < 255,
                from < n,
                n == self.axes@.len(),
                forall|k: int|
                    0 <= k < 15 ==> #[trigger] moves[k] == axis_vocabulary(self.axes@[from as int])[k],
                book.is_well_formed(),
                lowered(old(book)@, book@, 0),
                lowered(old(book)@, book@, depth + 1),
                kept(old(book).met(), book.met()),
                book@ == axes_searched(self.axes@, from as int, depth, old(book)@, cube@, i as int),
                forall|k: int|
                    0 <= k < i ==> (on_record(
                        book@,
                        moved(cube@, #[trigger] axis_vocabulary(self.axes@[from as int])[k]),
                    ) matches Some(near) && near <= depth + 1),
            decreases 15 - i,
        {
            let new_cube = cube.clone().make_move(moves[i]);
            let ghost before = book@;
            let news = match book.insert_cube(&new_cube, depth + 1) {
                Some(old_depth) => depth + 1 < old_depth,
                None => true,
            };
            let ghost put = book@;
            proof {
                lemma_lowered_same(put, 0);
                lemma_lowered_same(put, depth + 1);
                assert(news == is_news(before, new_cube@, (depth + 1) as u8));
                assert(put == filed(before, new_cube@, (depth + 1) as u8));
            }
            if news {
                self.explore_from(from + 1, depth + 1, book, &new_cube);
                proof {
                    if from + 1 < n && depth + 1 < 255 {
                        lemma_lowered_transitive(put, put, book@, depth + 1, depth + 2, depth + 1);
                    }
                }
            }
            proof {
                lemma_lowered_transitive(before, before, put, 0, depth + 1, 0);
                lemma_lowered_transitive(before, put, book@, 0, 0, 0);
                lemma_lowered_transitive(old(book)@, before, book@, 0, 0, 0);
                lemma_lowered_transitive(before, put, book@, depth + 1, depth + 1, depth + 1);
                lemma_lowered_transitive(
                    old(book)@,
                    before,
                    book@,
                    depth + 1,
                    depth + 1,
                    depth + 1,
                );
                assert forall|k: int| 0 <= k < i + 1 implies (on_record(
                    book@,
                    moved(cube@, #[trigger] axis_vocabulary(self.axes@[from as int])[k]),
                ) matches Some(near) && near <= depth + 1) by {
                    let s = moved(cube@, axis_vocabulary(self.axes@[from as int])[k]);
                    lemma_lowered_monotone(before, book@, depth + 1, state_code(s));
                    lemma_lowered_monotone(put, book@, depth + 1, state_code(s));
                }
            }
            i += 1;
        }
    }
}

impl Strategy for PartialTree {
    /// The store holds what the search along the axes, from the first
    /// on, makes of it, from a cube that was reached in `current_depth`
    /// moves.
    open spec fn explored(
        &self,
        before: Map<u128, u8>,
        cube: Seq<Rotation>,
        after: Map<u128, u8>,
    ) -> bool {
        after == axes_searched(self.axes@, 0, self.current_depth, before, cube, 15)
    }

    fn explore(&self, book: &mut Store<Move>, cube: &Cube<Position>)
        ensures
            searched_along(self.axes@, 0, self.current_depth, old(book)@, cube@, final(book)@),
    {
        self.explore_from(0, self.current_depth, book, cube);
    }
}

/// Repeats a sequence of `Move`s until returning to the cube from which
/// it set out.
pub struct Cycle {
    pub moves: Vec<Move>,
}

/// Whether two cubes are the same.
pub fn same_cube(a: &Cube<Position>, b: &Cube<Position>) -> (same: bool)
    ensures
        same == (a@ == b@),
{
    let x = a.cubelets();
    let y = b.cubelets();
    let mut i: usize = 0;
    while i < 20
        invariant
            i <= 20,
            x@ == a@,
            y@ == b@,
            forall|k: int| 0 <= k < i ==> x@[k] == y@[k],
        decreases 20 - i,
    {
        if x[i] != y[i] {
            return false;
        }
        i += 1;
    }
    assert(a@ =~= b@);
    true
}

/// The number of the move that is made after `k` moves of a walk that
/// goes through `n` moves over and over.
pub open spec fn turn_of(k: int, n: int) -> int {
    k % n
}

/// After the last of the moves comes the first.
pub proof fn lemma_turn_of_next(k: int, n: int)
    requires
        0 <= k,
        0 < n,
    ensures
        0 <= turn_of(k, n) < n,
        turn_of(k + 1, n) == if turn_of(k, n) + 1 < n {
            turn_of(k, n) + 1
        } else {
            0
        },
{
    assert(0 <= k % n < n && (k + 1) % n == if k % n + 1 < n {
        k % n + 1
    } else {
        0
    }) by (nonlinear_arith)
        requires
            0 <= k,
            0 < n,
    ;
}

/// The cube that a walk reaches in `k` moves from a cube, going through
/// the moves over and over.
pub open spec fn walked(start: Seq<Rotation>, moves: Seq<Move>, k: int) -> Seq<Rotation>
    decreases k,
{
    if k <= 0 {
        start
    } else {
        moved(walked(start, moves, k - 1), moves[turn_of(k - 1, moves.len() as int)])
    }
}

/// Whether every cube of the first `steps` moves of a walk is on record,
/// at no more than the depth from which the walk set out and the number
/// of moves that lead to the cube.
pub open spec fn walk_filed(
    depths: Map<u128, u8>,
    start: Seq<Rotation>,
    moves: Seq<Move>,
    depth: int,
    steps: int,
) -> bool {
    forall|j: int|
        1 <= j <= steps ==> (on_record(depths, #[trigger] walked(start, moves, j)) matches Some(
            known,
        ) && known <= depth + j)
}

/// Whether a walk of `steps` moves has not come back to where it set out
/// before its last move.
pub open spec fn walk_is_out(start: Seq<Rotation>, moves: Seq<Move>, steps: int) -> bool {
    forall|j: int| 1 <= j < steps ==> #[trigger] walked(start, moves, j) != start
}

/// Whether a walk of `steps` moves is at its end: it is back where it set
/// out, or it has made 65535 moves, or the cube it has come to is on
/// record at depth 255.
pub open spec fn walk_is_over(
    depths: Map<u128, u8>,
    start: Seq<Rotation>,
    moves: Seq<Move>,
    steps: int,
) -> bool {
    ||| walked(start, moves, steps) == start
    ||| steps == 65535
    ||| on_record(depths, walked(start, moves, steps)) == Some(255u8)
}

impl Strategy for Cycle {
    /// From a cube that is on record, at a depth below 255, a walk of at
    /// least one move is made, as far as its end and no farther. Every
    /// cube of the walk is on record at no more than the depth of the
    /// first cube and the number of moves that lead to it, and no depth
    /// has been filed that is less than 1. From any other cube, or where
    /// there are no moves, nothing is done.
    open spec fn explored(
        &self,
        before: Map<u128, u8>,
        cube: Seq<Rotation>,
        after: Map<u128, u8>,
    ) -> bool {
        if on_record(before, cube) is Some && on_record(before, cube)->Some_0 < 255
            && self.moves@.len() > 0 {
            &&& lowered(before, after, 1)
            &&& exists|steps: int|
                1 <= steps <= 65535 && #[trigger] walk_filed(
                    after,
                    cube,
                    self.moves@,
                    on_record(before, cube)->Some_0 as int,
                    steps,
                ) && walk_is_out(cube, self.moves@, steps) && walk_is_over(
                    after,
                    cube,
                    self.moves@,
                    steps,
                )
        } else {
            after == before
        }
    }

    /// Makes the moves over and over from a cube that the store knows,
    /// counting on from its depth. A cube on the way that is known
    /// farther is filed at the count, and the cubes next to it are filed
    /// anew; at a cube that is known nearer the count goes on from its
    /// depth. The walk ends where it set out; it is given up when the
    /// count is at 255, or after 65535 moves.
    fn explore(&self, book: &mut Store<Move>, start_cube: &Cube<Position>) {
        proof {
            lemma_lowered_same(book@, 0);
            lemma_lowered_same(book@, 1);
        }
        let mut depth = match book.get_depth(start_cube) {
            Some(depth) => depth,
            None => {
                return ;
            },
        };
        if self.moves.len() == 0 || depth == 255 {
            return ;
        }
        let ghost first = depth as int;
        let n = self.moves.len();
        let mut cube = start_cube.clone();
        let mut i: usize = 0;
        let mut steps: u32 = 0;
        let mut back = false;
        while !back && depth < 255 && steps < 65535
            invariant
                i < n,
                n == self.moves@.len(),
                i == turn_of(steps as int, n as int),
                steps <= 65535,
                steps == 0 ==> !back && depth < 255,
                back == (steps >= 1 && cube@ == start_cube@),
                cube@ == walked(start_cube@, self.moves@, steps as int),
                depth <= first + steps,
                steps >= 1 ==> on_record(book@, cube@) == Some(depth),
                lowered(old(book)@, book@, 1),
                walk_filed(book@, start_cube@, self.moves@, first, steps as int),
                walk_is_out(start_cube@, self.moves@, steps as int),
                book.is_well_formed(),
                lowered(old(book)@, book@, 0),
                kept(old(book).met(), book.met()),
            decreases 65535 - steps,
        {
            let ghost before = book@;
            cube = cube.make_move(self.moves[i]);
            depth += 1;
            steps += 1;
            proof {
                lemma_turn_of_next(steps - 1, n as int);
                lemma_lowered_same(before, 0);
                assert(cube@ == walked(start_cube@, self.moves@, steps as int));
            }
            let prior = book.insert_cube(&cube, depth);
            let ghost put = book@;
            proof {
                lemma_lowered_same(before, 1);
                lemma_lowered_same(put, 1);
                lemma_lowered_transitive(before, before, put, 1, depth as int, 1);
            }
            match prior {
                Some(old_depth) => {
                    proof {
                        lemma_lowered_transitive(before, before, put, 0, depth as int, 0);
                        lemma_lowered_same(put, 0);
                    }
                    if old_depth > depth {
                        // news of a shorter way: tell the cubes next to it
                        Update.explore(book, &cube);
                    } else if old_depth < depth {
                        // the walk has come back on known ground: go on from
                        // the depth on record
                        depth = old_depth;
                        Update.explore(book, &cube);
                    }
                    proof {
                        lemma_lowered_transitive(before, put, book@, 0, 0, 0);
                    }
                },
                None => {
                    proof {
                        lemma_lowered_transitive(before, before, book@, 0, depth as int, 0);
                        lemma_lowered_same(put, 0);
                    }
                },
            }
            proof {
                lemma_lowered_transitive(old(book)@, before, book@, 0, 0, 0);
                assert(on_record(put, cube@) == Some(depth));
                assert(entry_lowered(put, book@, depth + 1, state_code(cube@)));
                if depth < 255 {
                    lemma_lowered_transitive(put, put, book@, 1, depth + 1, 1);
                }
                lemma_lowered_transitive(before, put, book@, 1, 1, 1);
                lemma_lowered_transitive(old(book)@, before, book@, 1, 1, 1);
                assert forall|j: int| 1 <= j <= steps implies (on_record(
                    book@,
                    #[trigger] walked(start_cube@, self.moves@, j),
                ) matches Some(on) && on <= first + j) by {
                    let at = walked(start_cube@, self.moves@, j);
                    lemma_lowered_monotone(before, book@, 0, state_code(at));
                    lemma_lowered_monotone(put, book@, 0, state_code(at));
                    if j < steps {
                        assert(on_record(before, at) is Some);
                    } else {
                        assert(at == cube@);
                        assert(on_record(put, at) is Some);
                    }
                }
            }
            back = same_cube(&cube, start_cube);
            i = if i + 1 < n {
                i + 1
            } else {
                0
            };
        }
    }
}

/// Adds all cubes along a single path.
pub struct NewPath {
    pub path: Vec<Move>,
}

/// Search a random path and stop at `max_depth`.
#[derive(Clone, Copy)]
pub struct RivuletMax {
    pub max_depth: u8,
}

/// Many random walks, side by side.
pub struct Rivulets {
    pub rivulets: Vec<Rivulets>,
}

/// Breadth-first search.
#[derive(Clone, Copy)]
pub struct Flood {
    pub search_depth: u8,
}

} // verus!
