//! The store: depths kept in memory. A worker of a search fills one of
//! its own, and the stores of all workers are merged when they are done.

use std::collections::HashMap;
use std::marker::PhantomData;
use vstd::prelude::*;
use vstd::std_specs::hash::*;

use crate::action::Action;
use crate::book::{
    cube_key, frame_load, le_limit, le_value, lemma_reachable_push, lemma_reachable_solved,
    lemma_weight_step, load, reachable_in, Frame,
};
use crate::codec::{codes, Packable};
use crate::cube::{moved, solved, Cube, Position};
use crate::cubelet::lemma_of_ordinal;
use crate::error::ErrorKind;
use crate::cubelet::Rotation;

verus! {

broadcast use vstd::std_specs::hash::group_hash_axioms;

/// The depths of the cubes that a search has met, for the vocabulary
/// `A`. A cube is filed under the number that the bytes of its key spell,
/// least significant first.
pub struct Store<A> {
    depths: HashMap<u128, u8>,
    // every cube that has a depth, in the order in which they were met
    cubes: Vec<Cube<Position>>,
    _phantom: PhantomData<A>,
}

/// The number under which a state is filed.
pub open spec fn state_code(s: Seq<Rotation>) -> u128 {
    le_value(cube_key(s)) as u128
}

/// Whether a depth is news of a shorter way to a state that is on
/// record: the depth on record is greater.
pub open spec fn is_shorter(depths: Map<u128, u8>, s: Seq<Rotation>, depth: u8) -> bool {
    on_record(depths, s) matches Some(prior) && depth < prior
}

/// Whether the state that the `i`-th action of a vocabulary leads to from
/// a state is on record, at no more than one more than `depth`.
pub open spec fn near_on_record<A: Action>(
    depths: Map<u128, u8>,
    s: Seq<Rotation>,
    i: int,
    depth: int,
) -> bool {
    on_record(depths, moved(s, A::vocabulary()[i].as_move())) matches Some(near) && near <= depth
        + 1
}

/// Whether one of the cubes that a list picks out of some cubes has the
/// given number.
pub open spec fn is_picked(cubes: Seq<Cube<Position>>, list: Seq<usize>, code: u128) -> bool {
    exists|j: int|
        0 <= j < list.len() && list[j] < cubes.len() && state_code(
            #[trigger] cubes[list[j] as int]@,
        ) == code
}

/// The depth that is filed for a state, if one is.
pub open spec fn on_record(depths: Map<u128, u8>, s: Seq<Rotation>) -> Option<u8> {
    if depths.contains_key(state_code(s)) {
        Some(depths[state_code(s)])
    } else {
        None
    }
}

/// What becomes of the depth under one number while depths are filed that
/// are no less than `floor`: it is as it was, or it is at least `floor`
/// and less than it was, if it was there.
pub open spec fn entry_lowered(
    before: Map<u128, u8>,
    after: Map<u128, u8>,
    floor: int,
    code: u128,
) -> bool {
    ||| {
        &&& before.contains_key(code) == after.contains_key(code)
        &&& before.contains_key(code) ==> after[code] == before[code]
    }
    ||| {
        &&& after.contains_key(code)
        &&& floor <= after[code]
        &&& before.contains_key(code) ==> after[code] < before[code]
    }
}

/// What becomes of the depths of a store while depths are filed that are
/// no less than `floor`.
pub open spec fn lowered(before: Map<u128, u8>, after: Map<u128, u8>, floor: int) -> bool {
    forall|code: u128| #[trigger] entry_lowered(before, after, floor, code)
}

/// Whether every cube that was met is still met, in its place: cubes are
/// added behind, and none is forgotten.
pub open spec fn kept(before: Seq<Cube<Position>>, after: Seq<Cube<Position>>) -> bool {
    &&& before.len() <= after.len()
    &&& forall|i: int| 0 <= i < before.len() ==> #[trigger] after[i] == before[i]
}

/// Depths are filed in turn: what two rounds of filing do is what one
/// round does, with the lesser floor.
pub proof fn lemma_lowered_transitive(
    first: Map<u128, u8>,
    second: Map<u128, u8>,
    third: Map<u128, u8>,
    floor1: int,
    floor2: int,
    floor: int,
)
    requires
        lowered(first, second, floor1),
        lowered(second, third, floor2),
        floor <= floor1,
        floor <= floor2,
    ensures
        lowered(first, third, floor),
{
    assert forall|code: u128| #[trigger] entry_lowered(first, third, floor, code) by {
        assert(entry_lowered(first, second, floor1, code));
        assert(entry_lowered(second, third, floor2, code));
    }
}

/// Nothing filed leaves the depths as they were.
pub proof fn lemma_lowered_same(depths: Map<u128, u8>, floor: int)
    ensures
        lowered(depths, depths, floor),
{
    assert forall|code: u128| #[trigger] entry_lowered(depths, depths, floor, code) by {}
}

/// A depth never grows, and never goes away, while depths are filed.
pub proof fn lemma_lowered_monotone(
    before: Map<u128, u8>,
    after: Map<u128, u8>,
    floor: int,
    code: u128,
)
    requires
        lowered(before, after, floor),
    ensures
        before.contains_key(code) ==> after.contains_key(code) && after[code] <= before[code],
{
    assert(entry_lowered(before, after, floor, code));
}

/// The bytes of a key spell a number below the limit of their width.
pub proof fn lemma_le_value_bound(bytes: Seq<u8>)
    ensures
        le_value(bytes) < le_limit(bytes.len()),
    decreases bytes.len(),
{
    if bytes.len() > 0 {
        lemma_le_value_bound(bytes.skip(1));
    }
}

/// Bytes of one length that spell one number are the same bytes.
pub proof fn lemma_le_value_injective(a: Seq<u8>, b: Seq<u8>)
    requires
        a.len() == b.len(),
        le_value(a) == le_value(b),
    ensures
        a == b,
    decreases a.len(),
{
    if a.len() > 0 {
        assert(a[0] == b[0] && le_value(a.skip(1)) == le_value(b.skip(1))) by {
            let x = le_value(a.skip(1));
            let y = le_value(b.skip(1));
            assert(a[0] as nat + 256 * x == b[0] as nat + 256 * y);
        }
        lemma_le_value_injective(a.skip(1), b.skip(1));
        assert(a =~= seq![a[0]] + a.skip(1));
        assert(b =~= seq![b[0]] + b.skip(1));
    } else {
        assert(a =~= b);
    }
}

/// The numbers under which states are filed tell the states apart.
pub proof fn lemma_state_code_injective(a: Seq<Rotation>, b: Seq<Rotation>)
    requires
        a.len() == 20,
        b.len() == 20,
        state_code(a) == state_code(b),
    ensures
        a == b,
{
    crate::book::lemma_cube_key_len(a);
    crate::book::lemma_cube_key_len(b);
    lemma_le_value_bound(cube_key(a));
    lemma_le_value_bound(cube_key(b));
    assert(le_limit(13) == 0x100000000000000000000000000) by {
        reveal_with_fuel(le_limit, 14);
    }
    lemma_le_value_injective(cube_key(a), cube_key(b));
    crate::book::lemma_cube_key_injective(a, b);
}

/// The number under which a cube is filed.
pub fn code_of(cube: &Cube<Position>) -> (code: u128)
    ensures
        code == state_code(cube@),
{
    let key = cube.to_packed();
    let mut code: u128 = 0;
    let mut i: usize = 13;
    proof {
        assert(key@.skip(13) =~= seq![]);
        assert(le_limit(13) == 0x100000000000000000000000000) by {
            reveal_with_fuel(le_limit, 14);
        }
    }
    while i > 0
        invariant
            i <= 13,
            key@.len() == 13,
            code == le_value(key@.skip(i as int)),
            le_limit(13) == 0x100000000000000000000000000,
        decreases i,
    {
        proof {
            lemma_le_value_bound(key@.skip(i as int));
            lemma_limit_grows((13 - i) as nat, 12);
            assert(key@.skip(i - 1).skip(1) =~= key@.skip(i as int));
        }
        i -= 1;
        code = key[i] as u128 + 256 * code;
    }
    assert(key@.skip(0) =~= key@);
    proof {
        lemma_le_value_bound(key@);
    }
    code
}

/// The record of a cube and its depth in a file of depths: the twenty
/// codes of the orientations, and the depth.
pub fn to_record(cube: &Cube<Position>, depth: u8) -> (record: Vec<u8>)
    ensures
        record@ == codes(cube@).push(depth),
        record@.len() == 21,
{
    let cubelets = cube.cubelets();
    let mut record: Vec<u8> = Vec::new();
    let mut i: usize = 0;
    while i < 20
        invariant
            i <= 20,
            cubelets@ == cube@,
            record@.len() == i,
            forall|k: int| 0 <= k < i ==> #[trigger] record@[k] == cube@[k].code(),
        decreases 20 - i,
    {
        record.push(cubelets[i].to_byte());
        i += 1;
    }
    record.push(depth);
    assert(record@ =~= codes(cube@).push(depth));
    record
}

/// Reads a cube and its depth from a record. Bytes of another length, or
/// with a byte among the first twenty that is the code of no orientation,
/// are refused.
pub fn from_record(record: &[u8]) -> (r: Result<(Cube<Position>, u8), ErrorKind>)
    ensures
        match r {
            Ok((cube, depth)) => record@ == codes(cube@).push(depth),
            Err(e) => e == ErrorKind::InvalidEncoding && forall|s: Seq<Rotation>, depth: u8|
                s.len() == 20 ==> #[trigger] codes(s).push(depth) != record@,
        },
{
    if record.len() != 21 {
        assert forall|s: Seq<Rotation>, depth: u8| s.len() == 20 implies #[trigger] codes(s).push(
            depth,
        ) != record@ by {
            assert(codes(s).push(depth).len() == 21);
        }
        return Err(ErrorKind::InvalidEncoding);
    }
    let home: Cube<Position> = Cube::default();
    let mut cubelets = *home.cubelets();
    let mut i: usize = 0;
    while i < 20
        invariant
            i <= 20,
            record@.len() == 21,
            forall|k: int| 0 <= k < i ==> (#[trigger] cubelets@[k]).code() == record@[k],
        decreases 20 - i,
    {
        match Rotation::from_code(record[i]) {
            Ok(rot) => {
                cubelets[i] = rot;
            },
            Err(_) => {
                assert forall|s: Seq<Rotation>, depth: u8| s.len() == 20 implies #[trigger] codes(
                    s,
                ).push(depth) != record@ by {
                    assert(codes(s).push(depth)[i as int] == s[i as int].code());
                }
                return Err(ErrorKind::InvalidEncoding);
            },
        }
        i += 1;
    }
    let cube: Cube<Position> = Cube::new(cubelets);
    assert(record@ =~= codes(cube@).push(record@[20]));
    Ok((cube, record[20]))
}

/// Whether every depth is the length of a way that there is: no state is
/// filed nearer than it can be reached in the vocabulary.
pub open spec fn sound_depths<A: Action>(depths: Map<u128, u8>) -> bool {
    forall|s: Seq<Rotation>|
        s.len() == 20 && depths.contains_key(#[trigger] state_code(s)) ==> reachable_in::<A>(
            s,
            depths[state_code(s)] as int,
        )
}

/// Filing, for a state, a depth at which it is reached keeps the depths
/// sound.
pub proof fn lemma_sound_depths_insert<A: Action>(
    before: Map<u128, u8>,
    cube: Seq<Rotation>,
    depth: u8,
)
    requires
        cube.len() == 20,
        sound_depths::<A>(before),
        reachable_in::<A>(cube, depth as int),
    ensures
        sound_depths::<A>(before.insert(state_code(cube), depth)),
{
    let after = before.insert(state_code(cube), depth);
    assert forall|s: Seq<Rotation>|
        s.len() == 20 && after.contains_key(#[trigger] state_code(s)) implies reachable_in::<A>(
        s,
        after[state_code(s)] as int,
    ) by {
        if state_code(s) == state_code(cube) {
            lemma_state_code_injective(s, cube);
        }
    }
}

/// The limit grows with the width.
pub proof fn lemma_limit_grows(narrow: nat, wide: nat)
    requires
        narrow <= wide,
    ensures
        le_limit(narrow) <= le_limit(wide),
    decreases wide,
{
    if narrow < wide {
        lemma_limit_grows(narrow, (wide - 1) as nat);
    }
}

impl<A: Action> View for Store<A> {
    type V = Map<u128, u8>;

    /// The depth under each number.
    closed spec fn view(&self) -> Map<u128, u8> {
        self.depths@
    }
}

impl<A: Action> Store<A> {
    /// The cubes that have a depth, in the order in which they were met.
    pub closed spec fn met(&self) -> Seq<Cube<Position>> {
        self.cubes@
    }

    /// Whether the store knows the cube of every depth that it holds,
    /// and holds a depth for every cube that it knows.
    pub open spec fn is_well_formed(&self) -> bool {
        &&& forall|i: int|
            0 <= i < self.met().len() ==> self@.contains_key(
                #[trigger] state_code(self.met()[i]@),
            )
        &&& forall|code: u128| #[trigger]
            self@.contains_key(code) ==> exists|i: int|
                0 <= i < self.met().len() && state_code(#[trigger] self.met()[i]@) == code
    }

    /// Whether every depth of the store is the length of a way that
    /// there is.
    pub open spec fn is_sound(&self) -> bool {
        sound_depths::<A>(self@)
    }

    /// The depth on record for a state.
    pub open spec fn depth_of(&self, s: Seq<Rotation>) -> Option<u8> {
        on_record(self@, s)
    }

    /// The store that holds nothing.
    pub fn empty() -> (store: Store<A>)
        ensures
            store.is_well_formed(),
            store.is_sound(),
            store@ == Map::<u128, u8>::empty(),
            store.met().len() == 0,
    {
        let store = Store { depths: HashMap::new(), cubes: Vec::new(), _phantom: PhantomData };
        assert(store@ =~= Map::<u128, u8>::empty());
        store
    }

    /// The store that holds the solved cube, at depth 0, and nothing
    /// else.
    pub fn new() -> (store: Store<A>)
        ensures
            store.is_well_formed(),
            store.is_sound(),
            store@ == Map::<u128, u8>::empty().insert(state_code(solved()), 0u8),
            store.met().len() == 1,
            store.met()[0]@ == solved(),
    {
        Store::with_capacity(0)
    }

    /// The same, with room for a number of cubes.
    pub fn with_capacity(cap: usize) -> (store: Store<A>)
        ensures
            store.is_well_formed(),
            store.is_sound(),
            store@ == Map::<u128, u8>::empty().insert(state_code(solved()), 0u8),
            store.met().len() == 1,
            store.met()[0]@ == solved(),
    {
        proof {
            lemma_reachable_solved::<A>();
            assert(sound_depths::<A>(Map::<u128, u8>::empty()));
            lemma_sound_depths_insert::<A>(Map::<u128, u8>::empty(), solved(), 0);
        }
        let mut depths: HashMap<u128, u8> = HashMap::with_capacity(cap);
        let home: Cube<Position> = Cube::default();
        depths.insert(code_of(&home), 0);
        let mut cubes: Vec<Cube<Position>> = Vec::new();
        cubes.push(home);
        let store = Store { depths, cubes, _phantom: PhantomData };
        assert(store.met()[0]@ == solved());
        store
    }

    /// The number of cubes that have a depth.
    pub fn len(&self) -> (n: usize)
        ensures
            n == self.met().len(),
    {
        self.cubes.len()
    }

    /// The cube that was met as the `i`-th.
    pub fn cube_at(&self, i: usize) -> (cube: &Cube<Position>)
        requires
            i < self.met().len(),
        ensures
            *cube == self.met()[i as int],
    {
        &self.cubes[i]
    }

    /// The depth on record for a cube.
    pub fn get_depth(&self, cube: &Cube<Position>) -> (depth: Option<u8>)
        ensures
            depth == self.depth_of(cube@),
    {
        let code = code_of(cube);
        match self.depths.get(&code) {
            Some(depth) => Some(*depth),
            None => None,
        }
    }

    /// Files a depth for a cube unless a lesser one is on record, and
    /// gives the depth that was on record.
    pub fn insert_cube(&mut self, cube: &Cube<Position>, depth: u8) -> (prior: Option<u8>)
        requires
            old(self).is_well_formed(),
        ensures
            final(self).is_well_formed(),
            prior == old(self).depth_of(cube@),
            final(self)@ == (match prior {
                Some(old_depth) => if depth < old_depth {
                    old(self)@.insert(state_code(cube@), depth)
                } else {
                    old(self)@
                },
                None => old(self)@.insert(state_code(cube@), depth),
            }),
            lowered(old(self)@, final(self)@, depth as int),
            kept(old(self).met(), final(self).met()),
            sound_depths::<A>(old(self)@) && reachable_in::<A>(cube@, depth as int)
                ==> sound_depths::<A>(final(self)@),
    {
        proof {
            crate::cube::lemma_cube_len(*cube);
            if sound_depths::<A>(self@) && reachable_in::<A>(cube@, depth as int) {
                lemma_sound_depths_insert::<A>(self@, cube@, depth);
            }
        }
        let code = code_of(cube);
        let prior = match self.depths.get(&code) {
            Some(depth) => Some(*depth),
            None => None,
        };
        match prior {
            Some(old_depth) => {
                if depth < old_depth {
                    self.depths.insert(code, depth);
                }
            },
            None => {
                self.depths.insert(code, depth);
                self.cubes.push(cube.clone());
                assert(self.met()[self.met().len() - 1]@ == cube@);
            },
        }
        proof {
            assert forall|k: u128| #[trigger] entry_lowered(old(self)@, self@, depth as int, k) by {}
            assert forall|i: int| 0 <= i < self.met().len() implies self@.contains_key(
                #[trigger] state_code(self.met()[i]@),
            ) by {
                if i < old(self).met().len() {
                    assert(self.met()[i] == old(self).met()[i]);
                    assert(old(self)@.contains_key(state_code(old(self).met()[i]@)));
                }
            }
            assert forall|k: u128| #[trigger] self@.contains_key(k) implies exists|i: int|
                0 <= i < self.met().len() && state_code(#[trigger] self.met()[i]@) == k by {
                if old(self)@.contains_key(k) {
                    let i = choose|i: int|
                        0 <= i < old(self).met().len() && state_code(
                            #[trigger] old(self).met()[i]@,
                        ) == k;
                    assert(self.met()[i] == old(self).met()[i]);
                } else {
                    assert(state_code(self.met()[self.met().len() - 1]@) == k);
                }
            }
        }
        prior
    }

    /// Files `depth + 1` for every cube that is one action away from
    /// `cube`, and goes on from each for which that was news, and so on:
    /// the cubes whose neighbors are yet to be filed wait on a stack, the
    /// deepest on top.
    pub fn relax_neighbors(&mut self, cube: &Cube<Position>, depth: u8)
        requires
            old(self).is_well_formed(),
            depth < 255,
        ensures
            final(self).is_well_formed(),
            lowered(old(self)@, final(self)@, depth + 1),
            kept(old(self).met(), final(self).met()),
            forall|i: int|
                0 <= i < A::vocabulary().len() ==> (final(self).depth_of(
                    moved(cube@, (#[trigger] A::vocabulary()[i]).as_move()),
                ) matches Some(near) && near <= depth + 1),
            sound_depths::<A>(old(self)@) && reachable_in::<A>(cube@, depth as int)
                ==> sound_depths::<A>(final(self)@),
    {
        let actions = A::all();
        let n = actions.len();
        let mut stack: Vec<Frame> = Vec::new();
        stack.push(Frame { cube: cube.clone(), depth, next: 0 });
        proof {
            lemma_lowered_same(self@, depth + 1);
        }
        while stack.len() > 0
            invariant
                n == actions@.len(),
                actions@ == A::vocabulary(),
                depth < 255,
                self.is_well_formed(),
                lowered(old(self)@, self@, depth + 1),
                kept(old(self).met(), self.met()),
                forall|k: int|
                    0 <= k < stack@.len() ==> (#[trigger] stack@[k]).depth == depth + k
                        && stack@[k].depth < 255 && stack@[k].next <= n,
                stack@.len() > 0 ==> stack@[0].cube@ == cube@,
                forall|j: int|
                    0 <= j < (if stack@.len() > 0 {
                        stack@[0].next as int
                    } else {
                        n as int
                    }) ==> (self.depth_of(
                        moved(cube@, (#[trigger] A::vocabulary()[j]).as_move()),
                    ) matches Some(near) && near <= depth + 1),
                sound_depths::<A>(old(self)@) && reachable_in::<A>(cube@, depth as int)
                    ==> sound_depths::<A>(self@) && forall|k: int|
                    0 <= k < stack@.len() ==> reachable_in::<A>(
                        (#[trigger] stack@[k]).cube@,
                        stack@[k].depth as int,
                    ),
            decreases load(stack@, n as nat),
        {
            let ghost frames = stack@;
            let ghost before = self@;
            let ghost top = frames.len() - 1;
            let mut frame = match stack.pop() {
                Some(frame) => frame,
                None => {
                    return ;
                },
            };
            let ghost rest = stack@;
            proof {
                assert(rest =~= frames.drop_last());
                assert(frame == frames[top]);
                lemma_weight_step(frame.next as nat, frame.depth as nat, n as nat);
                assert forall|k: int| 0 <= k < rest.len() implies #[trigger] rest[k] == frames[k] by {}
            }
            if frame.next < n {
                let i = frame.next;
                let d = frame.depth;
                let near = frame.cube.clone().make_move(actions[i].to_move());
                let ghost waiting = frame;
                frame.next = i + 1;
                let ghost advanced = frame;
                stack.push(frame);
                proof {
                    if reachable_in::<A>(waiting.cube@, d as int) {
                        lemma_reachable_push::<A>(waiting.cube@, d as int, A::vocabulary()[i as int]);
                    }
                }
                let news = match self.insert_cube(&near, d + 1) {
                    Some(old_depth) => d + 1 < old_depth,
                    None => false,
                };
                if news {
                    stack.push(Frame { cube: near, depth: d + 1, next: 0 });
                }
                proof {
                    lemma_lowered_transitive(
                        old(self)@,
                        before,
                        self@,
                        depth + 1,
                        d + 1,
                        depth + 1,
                    );
                    assert forall|k: int| 0 <= k < stack@.len() implies (#[trigger] stack@[k]).depth
                        == depth + k && stack@[k].depth < 255 && stack@[k].next <= n by {
                        if k < top {
                            assert(stack@[k] == frames[k]);
                        } else if k == top {
                            assert(stack@[k] == advanced);
                        }
                    }
                    assert forall|j: int| 0 <= j < stack@[0].next implies (self.depth_of(
                        moved(cube@, (#[trigger] A::vocabulary()[j]).as_move()),
                    ) matches Some(on_record) && on_record <= depth + 1) by {
                        let s = moved(cube@, A::vocabulary()[j].as_move());
                        lemma_lowered_monotone(before, self@, d + 1, state_code(s));
                        if top == 0 && j == i {
                            assert(s == near@);
                        }
                    }
                    assert(load(stack@, n as nat) < load(frames, n as nat)) by {
                        assert(frames.drop_last() =~= rest);
                        if news {
                            let reopened = rest.push(advanced);
                            assert(stack@.drop_last() =~= reopened);
                            assert(reopened.drop_last() =~= rest);
                            assert(load(reopened, n as nat) == load(rest, n as nat) + frame_load(
                                advanced,
                                n as nat,
                            ));
                        } else {
                            assert(stack@.drop_last() =~= rest);
                        }
                    }
                    if sound_depths::<A>(old(self)@) && reachable_in::<A>(cube@, depth as int) {
                        assert forall|k: int| 0 <= k < stack@.len() implies reachable_in::<A>(
                            (#[trigger] stack@[k]).cube@,
                            stack@[k].depth as int,
                        ) by {
                            if k < top {
                                assert(stack@[k] == frames[k]);
                            }
                        }
                    }
                }
            }
        }
    }

    /// Files a depth for a cube, and where that was news of a shorter
    /// way, files one more for every cube next to it, and so on.
    pub fn update_cube(&mut self, cube: &Cube<Position>, depth: u8)
        requires
            old(self).is_well_formed(),
        ensures
            final(self).is_well_formed(),
            lowered(old(self)@, final(self)@, depth as int),
            kept(old(self).met(), final(self).met()),
            final(self).depth_of(cube@) matches Some(filed) && filed <= depth,
            old(self).depth_of(cube@) is None ==> final(self).depth_of(cube@) == Some(depth),
            is_shorter(old(self)@, cube@, depth) ==> forall|i: int|
                0 <= i < A::vocabulary().len() ==> (final(self).depth_of(
                    moved(cube@, (#[trigger] A::vocabulary()[i]).as_move()),
                ) matches Some(near) && near <= depth + 1),
            !is_shorter(old(self)@, cube@, depth) ==> final(self)@ == (if old(self).depth_of(
                cube@,
            ) is Some {
                old(self)@
            } else {
                old(self)@.insert(state_code(cube@), depth)
            }),
            sound_depths::<A>(old(self)@) && reachable_in::<A>(cube@, depth as int)
                ==> sound_depths::<A>(final(self)@),
    {
        let prior = self.insert_cube(cube, depth);
        let ghost filed = self@;
        match prior {
            Some(old_depth) => {
                if depth < old_depth {
                    self.relax_neighbors(cube, depth);
                    proof {
                        lemma_lowered_transitive(
                            old(self)@,
                            filed,
                            self@,
                            depth as int,
                            depth + 1,
                            depth as int,
                        );
                        lemma_lowered_monotone(filed, self@, depth + 1, state_code(cube@));
                    }
                }
            },
            None => {},
        }
    }

    /// Takes in the depths of another store: a cube that this store did
    /// not know is filed, and of two depths for a cube the lesser is
    /// kept. From every cube whose depth went down, the cubes next to it
    /// are filed anew.
    pub fn extend_from_store(&mut self, other: Store<A>)
        requires
            old(self).is_well_formed(),
            other.is_well_formed(),
        ensures
            final(self).is_well_formed(),
            lowered(old(self)@, final(self)@, 0),
            kept(old(self).met(), final(self).met()),
            forall|code: u128| #[trigger]
                other@.contains_key(code) ==> final(self)@.contains_key(code)
                    && final(self)@[code] <= other@[code],
            forall|k: int, i: int|
                0 <= k < other.met().len() && 0 <= i < A::vocabulary().len() && is_shorter(
                    old(self)@,
                    other.met()[k]@,
                    other@[state_code(other.met()[k]@)],
                ) ==> #[trigger] near_on_record::<A>(
                    final(self)@,
                    other.met()[k]@,
                    i,
                    other@[state_code(other.met()[k]@)] as int,
                ),
            sound_depths::<A>(old(self)@) && sound_depths::<A>(other@) ==> sound_depths::<A>(
                final(self)@,
            ),
    {
        let mut cubes_to_update: Vec<usize> = Vec::new();
        let mut i: usize = 0;
        proof {
            lemma_lowered_same(self@, 0);
        }
        while i < other.len()
            invariant
                i <= other.met().len(),
                self.is_well_formed(),
                other.is_well_formed(),
                lowered(old(self)@, self@, 0),
                kept(old(self).met(), self.met()),
                sound_depths::<A>(old(self)@) && sound_depths::<A>(other@) ==> sound_depths::<A>(
                    self@,
                ),
                forall|k: int|
                    0 <= k < i ==> self@.contains_key(#[trigger] state_code(other.met()[k]@))
                        && self@[state_code(other.met()[k]@)] <= other@[state_code(
                        other.met()[k]@,
                    )],
                forall|k: int|
                    0 <= k < cubes_to_update@.len() ==> (#[trigger] cubes_to_update@[k])
                        < other.met().len() && other@[state_code(
                        other.met()[cubes_to_update@[k] as int]@,
                    )] < 255,
                forall|code: u128|
                    old(self)@.contains_key(code) && #[trigger] self@[code] < old(self)@[code]
                        ==> is_picked(other.met(), cubes_to_update@, code),
            decreases other.met().len() - i,
        {
            let cube = other.cube_at(i);
            let ghost before = self@;
            let ghost picked = cubes_to_update@;
            assert(other@.contains_key(state_code(other.met()[i as int]@)));
            proof {
                crate::cube::lemma_cube_len(other.met()[i as int]);
            }
            proof {
                lemma_lowered_same(before, 0);
            }
            match other.get_depth(cube) {
                Some(depth) => {
                    match self.insert_cube(cube, depth) {
                        Some(old_depth) => {
                            if depth < old_depth {
                                cubes_to_update.push(i);
                            }
                        },
                        None => {},
                    }
                    proof {
                        lemma_lowered_transitive(before, before, self@, 0, depth as int, 0);
                    }
                },
                None => {},
            }
            proof {
                lemma_lowered_transitive(old(self)@, before, self@, 0, 0, 0);
                assert forall|k: int| 0 <= k < i + 1 implies self@.contains_key(
                    #[trigger] state_code(other.met()[k]@),
                ) && self@[state_code(other.met()[k]@)] <= other@[state_code(other.met()[k]@)] by {
                    lemma_lowered_monotone(before, self@, 0, state_code(other.met()[k]@));
                }
                assert forall|code: u128|
                    old(self)@.contains_key(code) && #[trigger] self@[code] < old(
                        self,
                    )@[code] implies is_picked(other.met(), cubes_to_update@, code) by {
                    lemma_lowered_monotone(old(self)@, before, 0, code);
                    if before[code] < old(self)@[code] {
                        let j = choose|j: int|
                            0 <= j < picked.len() && picked[j] < other.met().len() && state_code(
                                #[trigger] other.met()[picked[j] as int]@,
                            ) == code;
                        assert(cubes_to_update@[j] == picked[j]);
                    } else {
                        let last = cubes_to_update@.len() - 1;
                        assert(code == state_code(other.met()[i as int]@));
                        assert(cubes_to_update@[last] == i);
                    }
                }
            }
            i += 1;
        }
        proof {
            assert forall|k: int|
                0 <= k < other.met().len() && is_shorter(
                    old(self)@,
                    other.met()[k]@,
                    other@[state_code(other.met()[k]@)],
                ) implies is_picked(
                other.met(),
                cubes_to_update@,
                #[trigger] state_code(other.met()[k]@),
            ) by {
                let code = state_code(other.met()[k]@);
                assert(self@.contains_key(code));
                assert(self@[code] < old(self)@[code]);
            }
        }
        let mut j: usize = 0;
        while j < cubes_to_update.len()
            invariant
                j <= cubes_to_update@.len(),
                self.is_well_formed(),
                other.is_well_formed(),
                lowered(old(self)@, self@, 0),
                forall|k: int|
                    0 <= k < other.met().len() && is_shorter(
                        old(self)@,
                        other.met()[k]@,
                        other@[state_code(other.met()[k]@)],
                    ) ==> is_picked(
                        other.met(),
                        cubes_to_update@,
                        #[trigger] state_code(other.met()[k]@),
                    ),
                forall|k: int, i: int|
                    0 <= k < j && 0 <= i < A::vocabulary().len() ==> #[trigger] near_on_record::<A>(
                        self@,
                        other.met()[cubes_to_update@[k] as int]@,
                        i,
                        other@[state_code(other.met()[cubes_to_update@[k] as int]@)] as int,
                    ),
                kept(old(self).met(), self.met()),
                sound_depths::<A>(old(self)@) && sound_depths::<A>(other@) ==> sound_depths::<A>(
                    self@,
                ),
                forall|k: int|
                    0 <= k < other.met().len() ==> self@.contains_key(
                        #[trigger] state_code(other.met()[k]@),
                    ) && self@[state_code(other.met()[k]@)] <= other@[state_code(
                        other.met()[k]@,
                    )],
                forall|k: int|
                    0 <= k < cubes_to_update@.len() ==> (#[trigger] cubes_to_update@[k])
                        < other.met().len() && other@[state_code(
                        other.met()[cubes_to_update@[k] as int]@,
                    )] < 255,
            decreases cubes_to_update@.len() - j,
        {
            let at = cubes_to_update[j];
            let cube = other.cube_at(at);
            let ghost before = self@;
            assert(other@.contains_key(state_code(other.met()[at as int]@)));
            proof {
                crate::cube::lemma_cube_len(other.met()[at as int]);
            }
            proof {
                lemma_lowered_same(before, 0);
            }
            match other.get_depth(cube) {
                Some(depth) => {
                    self.relax_neighbors(cube, depth);
                    proof {
                        lemma_lowered_transitive(before, before, self@, 0, depth + 1, 0);
                    }
                },
                None => {},
            }
            proof {
                lemma_lowered_transitive(old(self)@, before, self@, 0, 0, 0);
                assert forall|k: int, i: int|
                    0 <= k < j + 1 && 0 <= i < A::vocabulary().len() implies #[trigger] near_on_record::<
                    A,
                >(
                    self@,
                    other.met()[cubes_to_update@[k] as int]@,
                    i,
                    other@[state_code(other.met()[cubes_to_update@[k] as int]@)] as int,
                ) by {
                    let s = other.met()[cubes_to_update@[k] as int]@;
                    lemma_lowered_monotone(
                        before,
                        self@,
                        0,
                        state_code(moved(s, A::vocabulary()[i].as_move())),
                    );
                    if k < j {
                        assert(near_on_record::<A>(before, s, i, other@[state_code(s)] as int));
                    }
                }
                assert forall|k: int| 0 <= k < other.met().len() implies self@.contains_key(
                    #[trigger] state_code(other.met()[k]@),
                ) && self@[state_code(other.met()[k]@)] <= other@[state_code(other.met()[k]@)] by {
                    lemma_lowered_monotone(before, self@, 0, state_code(other.met()[k]@));
                }
            }
            j += 1;
        }
        proof {
            assert forall|code: u128| #[trigger] other@.contains_key(code) implies self@.contains_key(
                code,
            ) && self@[code] <= other@[code] by {
                let k = choose|k: int|
                    0 <= k < other.met().len() && state_code(#[trigger] other.met()[k]@) == code;
                assert(self@.contains_key(state_code(other.met()[k]@)));
            }
            assert forall|k: int, i: int|
                0 <= k < other.met().len() && 0 <= i < A::vocabulary().len() && is_shorter(
                    old(self)@,
                    other.met()[k]@,
                    other@[state_code(other.met()[k]@)],
                ) implies #[trigger] near_on_record::<A>(
                self@,
                other.met()[k]@,
                i,
                other@[state_code(other.met()[k]@)] as int,
            ) by {
                let code = state_code(other.met()[k]@);
                assert(is_picked(other.met(), cubes_to_update@, code));
                let p = choose|p: int|
                    0 <= p < cubes_to_update@.len() && cubes_to_update@[p] < other.met().len()
                        && state_code(#[trigger] other.met()[cubes_to_update@[p] as int]@) == code;
                let at = cubes_to_update@[p] as int;
                crate::cube::lemma_cube_len(other.met()[k]);
                crate::cube::lemma_cube_len(other.met()[at]);
                lemma_state_code_injective(other.met()[k]@, other.met()[at]@);
                assert(near_on_record::<A>(self@, other.met()[at]@, i, other@[code] as int));
            }
        }
    }
}

impl<A: Action> Clone for Store<A> {
    fn clone(&self) -> (store: Store<A>)
        ensures
            store@ == self@,
            store.met() == self.met(),
    {
        let mut cubes: Vec<Cube<Position>> = Vec::new();
        let mut i: usize = 0;
        while i < self.cubes.len()
            invariant
                i <= self.cubes.len(),
                cubes@ == self.cubes@.take(i as int),
            decreases self.cubes.len() - i,
        {
            cubes.push(self.cubes[i].clone());
            assert(self.cubes@.take(i as int).push(self.cubes@[i as int]) =~= self.cubes@.take(
                i + 1,
            ));
            i += 1;
        }
        assert(self.cubes@.take(self.cubes.len() as int) =~= self.cubes@);
        Store { depths: self.depths.clone(), cubes, _phantom: PhantomData }
    }
}

} // verus!
