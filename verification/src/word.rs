//! Words: sequences of actions, each kept together with the state that it
//! reaches from the solved cube.

use std::marker::PhantomData;
use vstd::prelude::*;
use vstd::string::StringExecFns;

use crate::action::{Action, Move};
use crate::codec::{
    codes, decode_all, is_packing, is_unpacking, lemma_round_trip, pack, unpack, Packable,
};
use crate::error::ErrorKind;
use crate::cube::{
    lemma_move_neutral, lemma_moved_len, lemma_moves_merge, moved, solved, Cube, Position,
};
use crate::cubelet::Rotation;

verus! {

/// A sequence of moves, spelled in the vocabulary `T`, and a cube. In a
/// consistent word the cube is the state that the moves reach from the
/// solved one.
#[derive(Debug)]
pub struct Word<T> {
    pub actions: Vec<Move>,
    pub cube: Cube<Position>,
    _phantom: PhantomData<T>,
}

/// The state that a sequence of moves reaches from the state `s`.
pub open spec fn folded(s: Seq<Rotation>, moves: Seq<Move>) -> Seq<Rotation>
    decreases moves.len(),
{
    if moves.len() == 0 {
        s
    } else {
        folded(moved(s, moves[0]), moves.skip(1))
    }
}

/// What one pass from left to right leaves of a sequence of moves. The
/// pass holds one move and meets the next: two that cancel are both
/// dropped, two about one axis become the one move that is then held, and
/// of two about different axes the first is put out and the second held.
pub open spec fn normalized(moves: Seq<Move>) -> Seq<Move>
    decreases moves.len(),
{
    if moves.len() < 2 {
        moves
    } else {
        match Move::reduced(moves[0], moves[1]) {
            (None, _) => normalized(moves.skip(2)),
            (Some(m), None) => normalized(seq![m] + moves.skip(2)),
            (Some(m), Some(_)) => seq![m] + normalized(moves.skip(1)),
        }
    }
}

/// The actions of a vocabulary that spell a sequence of moves.
pub open spec fn spelled_out<T: Action>(moves: Seq<Move>) -> Seq<T>
    decreases moves.len(),
{
    if moves.len() == 0 {
        seq![]
    } else {
        spelled_out::<T>(moves.drop_last()) + T::spelling(moves.last())
    }
}

/// The canonical moves of a sequence of actions.
pub open spec fn moves_of<T: Action>(actions: Seq<T>) -> Seq<Move> {
    Seq::new(actions.len(), |i: int| actions[i].as_move())
}

/// The texts of some actions with a blank between each two.
pub open spec fn joined<T: Action>(actions: Seq<T>) -> Seq<char>
    decreases actions.len(),
{
    if actions.len() == 0 {
        Seq::<char>::empty()
    } else if actions.len() == 1 {
        actions[0].shown()
    } else {
        joined(actions.drop_last()) + " "@ + actions.last().shown()
    }
}

/// A sequence of moves keeps the number of slots.
pub proof fn lemma_folded_len(s: Seq<Rotation>, moves: Seq<Move>)
    requires
        s.len() == 20,
    ensures
        folded(s, moves).len() == 20,
    decreases moves.len(),
{
    if moves.len() > 0 {
        lemma_moved_len(s, moves[0]);
        lemma_folded_len(moved(s, moves[0]), moves.skip(1));
    }
}

/// A sequence of moves and then one more reach what the one move reaches
/// from where the sequence ends.
pub proof fn lemma_folded_push(s: Seq<Rotation>, moves: Seq<Move>, m: Move)
    ensures
        folded(s, moves.push(m)) == moved(folded(s, moves), m),
    decreases moves.len(),
{
    let longer = moves.push(m);
    if moves.len() == 0 {
        assert(longer.skip(1) =~= seq![]);
        assert(folded(moved(s, m), longer.skip(1)) == moved(s, m));
    } else {
        assert(longer.skip(1) =~= moves.skip(1).push(m));
        lemma_folded_push(moved(s, moves[0]), moves.skip(1), m);
    }
}

/// Two sequences of moves, made one after the other, reach what the
/// second reaches from where the first ends.
pub proof fn lemma_folded_concat(s: Seq<Rotation>, first: Seq<Move>, second: Seq<Move>)
    ensures
        folded(s, first + second) == folded(folded(s, first), second),
    decreases first.len(),
{
    if first.len() == 0 {
        assert(first + second =~= second);
    } else {
        assert((first + second).skip(1) =~= first.skip(1) + second);
        assert((first + second)[0] == first[0]);
        lemma_folded_concat(moved(s, first[0]), first.skip(1), second);
    }
}

/// The moves of two sequences of actions, one behind the other.
pub proof fn lemma_moves_of_concat<T: Action>(first: Seq<T>, second: Seq<T>)
    ensures
        moves_of(first + second) == moves_of(first) + moves_of(second),
{
    assert(moves_of(first + second) =~= moves_of(first) + moves_of(second));
}

/// A sequence of moves spelled in a vocabulary reaches what the moves
/// reach.
pub proof fn lemma_spelled_out_reaches_same<T: Action>(s: Seq<Rotation>, moves: Seq<Move>)
    requires
        s.len() == 20,
    ensures
        folded(s, moves_of(spelled_out::<T>(moves))) == folded(s, moves),
    decreases moves.len(),
{
    if moves.len() > 0 {
        let front = moves.drop_last();
        let last = moves.last();
        lemma_spelled_out_reaches_same::<T>(s, front);
        lemma_moves_of_concat(spelled_out::<T>(front), T::spelling(last));
        lemma_folded_concat(s, moves_of(spelled_out::<T>(front)), moves_of(T::spelling(last)));
        lemma_folded_len(s, front);
        T::lemma_spelling(last, folded(s, front));
        assert(moves_of(T::spelling(last)) =~= Seq::new(
            T::spelling(last).len(),
            |i: int| T::spelling(last)[i].as_move(),
        ));
        assert(front.push(last) =~= moves);
        lemma_folded_push(s, front, last);
    } else {
        assert(moves_of(spelled_out::<T>(moves)) =~= moves);
    }
}

/// One pass of reduction changes no state: the moves that are left reach
/// what the moves reached.
pub proof fn lemma_normalized_reaches_same(s: Seq<Rotation>, moves: Seq<Move>)
    requires
        s.len() == 20,
    ensures
        folded(s, normalized(moves)) == folded(s, moves),
    decreases moves.len(),
{
    if moves.len() >= 2 {
        let after_two = folded(moved(moved(s, moves[0]), moves[1]), moves.skip(2));
        assert(moves.skip(1).skip(1) =~= moves.skip(2));
        assert(moves.skip(1)[0] == moves[1]);
        assert(folded(s, moves) == folded(moved(s, moves[0]), moves.skip(1)));
        assert(folded(moved(s, moves[0]), moves.skip(1)) == after_two);
        lemma_moved_len(s, moves[0]);
        match Move::reduced(moves[0], moves[1]) {
            (None, _) => {
                lemma_moves_merge(s, moves[0], moves[1]);
                lemma_move_neutral(s, moves[0].merged(moves[1]));
                lemma_normalized_reaches_same(s, moves.skip(2));
            },
            (Some(m), None) => {
                lemma_moves_merge(s, moves[0], moves[1]);
                let shorter = seq![m] + moves.skip(2);
                assert(shorter.skip(1) =~= moves.skip(2));
                assert(shorter[0] == m);
                lemma_normalized_reaches_same(s, shorter);
            },
            (Some(m), Some(_)) => {
                let rest = normalized(moves.skip(1));
                let out = seq![m] + rest;
                assert(out.skip(1) =~= rest);
                assert(out[0] == m);
                lemma_normalized_reaches_same(moved(s, m), moves.skip(1));
            },
        }
    }
}

impl<T: Action> Word<T> {
    /// The moves of the word.
    pub closed spec fn moves(&self) -> Seq<Move> {
        self.actions@
    }

    /// The state that the word holds.
    pub closed spec fn state(&self) -> Seq<Rotation> {
        self.cube@
    }

    /// Whether the word holds the state that its moves reach from the
    /// solved cube.
    pub open spec fn is_consistent(&self) -> bool {
        self.state() == folded(solved(), self.moves())
    }

    /// The empty word, at the solved cube.
    pub fn new() -> (w: Word<T>)
        ensures
            w.moves() == Seq::<Move>::empty(),
            w.state() == solved(),
            w.is_consistent(),
    {
        Word { actions: Vec::new(), cube: Cube::default(), _phantom: PhantomData }
    }

    /// The word of the given actions, made one after the other from the
    /// solved cube.
    pub fn from_actions(actions: &[T]) -> (w: Word<T>)
        ensures
            w.moves() == moves_of(actions@),
            w.is_consistent(),
    {
        let mut w: Word<T> = Word::new();
        let mut i: usize = 0;
        while i < actions.len()
            invariant
                i <= actions.len(),
                w.moves() == moves_of(actions@.take(i as int)),
                w.is_consistent(),
            decreases actions.len() - i,
        {
            w.make_move(actions[i]);
            assert(moves_of(actions@.take(i as int)).push(actions@[i as int].as_move())
                =~= moves_of(actions@.take(i + 1)));
            i += 1;
        }
        assert(actions@.take(actions.len() as int) =~= actions@);
        w
    }

    /// The word of the given moves, made one after the other from the
    /// solved cube.
    pub fn from_moves(moves: Vec<Move>) -> (w: Word<T>)
        ensures
            w.moves() == moves@,
            w.is_consistent(),
    {
        let mut cube: Cube<Position> = Cube::default();
        let mut i: usize = 0;
        assert(moves@.take(0) =~= Seq::<Move>::empty());
        while i < moves.len()
            invariant
                i <= moves.len(),
                cube@ == folded(solved(), moves@.take(i as int)),
            decreases moves.len() - i,
        {
            proof {
                assert(moves@.take(i as int).push(moves@[i as int]) =~= moves@.take(i + 1));
                lemma_folded_push(solved(), moves@.take(i as int), moves@[i as int]);
            }
            cube = cube.make_move(moves[i]);
            i += 1;
        }
        assert(moves@.take(moves.len() as int) =~= moves@);
        Word { actions: moves, cube, _phantom: PhantomData }
    }

    /// The moves of the word in bytes: their codes, six bits each,
    /// packed. A word with a move that has no code, one that turns
    /// nothing or that is not reduced, is refused.
    pub fn to_packed(&self) -> (r: Result<Vec<u8>, ErrorKind>)
        requires
            self.moves().len() * 7 + 7 <= usize::MAX,
        ensures
            match r {
                Ok(bytes) => is_packing(codes(self.moves()), 6, bytes@) && forall|i: int|
                    0 <= i < self.moves().len() ==> (#[trigger] self.moves()[i]).is_packable(),
                Err(e) => e == ErrorKind::InvalidEncoding && exists|i: int|
                    0 <= i < self.moves().len() && !(#[trigger] self.moves()[i]).is_packable(),
            },
    {
        let mut i: usize = 0;
        while i < self.actions.len()
            invariant
                i <= self.actions.len(),
                forall|k: int| 0 <= k < i ==> (#[trigger] self.actions@[k]).is_packable(),
            decreases self.actions.len() - i,
        {
            let m = self.actions[i];
            if m.1 >= 4 || m.2 >= 4 || (m.1 == 0 && m.2 == 0) {
                assert(!self.moves()[i as int].is_packable());
                return Err(ErrorKind::InvalidEncoding);
            }
            i += 1;
        }
        Ok(pack(self.actions.as_slice()))
    }

    /// Reads a word from the bytes in which its moves are packed, and
    /// makes the moves from the solved cube. Symbols that are the code of
    /// no move are passed over. What `to_packed` wrote is read back as it
    /// was.
    pub fn from_packed(bytes: &[u8]) -> (w: Word<T>)
        requires
            bytes.len() * 8 <= usize::MAX,
        ensures
            w.is_consistent(),
            exists|symbols: Seq<u8>|
                is_unpacking(bytes@, 6, symbols) && w.moves() == decode_all::<Move>(symbols),
            forall|moves: Seq<Move>|
                is_packing(#[trigger] codes(moves), 6, bytes@) && (forall|i: int|
                    0 <= i < moves.len() ==> (#[trigger] moves[i]).is_packable()) ==> w.moves()
                    == moves,
    {
        let moves: Vec<Move> = unpack(bytes);
        proof {
            let symbols = choose|symbols: Seq<u8>|
                is_unpacking(bytes@, 6, symbols) && moves@ == decode_all::<Move>(symbols);
            assert forall|written: Seq<Move>|
                is_packing(#[trigger] codes(written), 6, bytes@) && (forall|i: int|
                    0 <= i < written.len() ==> (#[trigger] written[i]).is_packable()) implies moves@
                == written by {
                lemma_round_trip::<Move>(written, bytes@, symbols);
            }
        }
        Word::from_moves(moves)
    }

    /// The moves of the word, spelled in its vocabulary.
    pub fn as_actions(&self) -> (actions: Vec<T>)
        ensures
            actions@ == spelled_out::<T>(self.moves()),
    {
        let mut actions: Vec<T> = Vec::new();
        let mut i: usize = 0;
        while i < self.actions.len()
            invariant
                i <= self.actions.len(),
                actions@ == spelled_out::<T>(self.actions@.take(i as int)),
            decreases self.actions.len() - i,
        {
            let mut spelling = T::from_move(self.actions[i]);
            assert(self.actions@.take(i + 1).drop_last() =~= self.actions@.take(i as int));
            actions.append(&mut spelling);
            i += 1;
        }
        assert(self.actions@.take(self.actions.len() as int) =~= self.actions@);
        actions
    }

    /// The word of a cube and a list of moves, taken on trust: nothing
    /// makes sure that the moves reach the cube.
    pub fn from_parts_unchecked(cube: Cube<Position>, actions: Vec<Move>) -> (w: Word<T>)
        ensures
            w.moves() == actions@,
            w.state() == cube@,
    {
        Word { cube, actions, _phantom: PhantomData }
    }

    /// Makes one more action: its move is added to the word, and made on
    /// the cube.
    pub fn make_move(&mut self, action: T)
        ensures
            final(self).moves() == old(self).moves().push(action.as_move()),
            final(self).state() == moved(old(self).state(), action.as_move()),
            old(self).is_consistent() ==> final(self).is_consistent(),
    {
        let m = action.to_move();
        proof {
            lemma_folded_push(solved(), self.actions@, m);
        }
        self.actions.push(m);
        self.cube = self.cube.clone().make_move(m);
    }

    /// Makes a move, in whatever vocabulary the word is spelled: the move
    /// is added to the word, and made on the cube.
    pub fn push_move(&mut self, m: Move)
        ensures
            final(self).moves() == old(self).moves().push(m),
            final(self).state() == moved(old(self).state(), m),
            old(self).is_consistent() ==> final(self).is_consistent(),
    {
        proof {
            lemma_folded_push(solved(), self.actions@, m);
        }
        self.actions.push(m);
        self.cube = self.cube.clone().make_move(m);
    }

    /// Takes the last move back: it is taken off the word, and undone on
    /// the cube. A word without moves is left as it is.
    pub fn pop_move(&mut self) -> (last: Option<Move>)
        ensures
            match last {
                Some(m) => old(self).moves() == final(self).moves().push(m)
                    && final(self).state() == moved(old(self).state(), m.inverted()),
                None => old(self).moves().len() == 0 && final(self).moves() == old(self).moves()
                    && final(self).state() == old(self).state(),
            },
    {
        match self.actions.pop() {
            Some(m) => {
                assert(old(self).actions@ =~= self.actions@.push(m));
                self.cube = self.cube.clone().make_move(m.inverse());
                Some(m)
            },
            None => None,
        }
    }

    /// The same moves and the same cube as a word of another vocabulary.
    pub fn respell<U: Action>(&self) -> (w: Word<U>)
        ensures
            w.moves() == self.moves(),
            w.state() == self.state(),
    {
        let copy = self.clone();
        Word { actions: copy.actions, cube: copy.cube, _phantom: PhantomData }
    }

    /// Makes each of the actions in turn.
    pub fn extend(&mut self, actions: &[T])
        ensures
            final(self).moves() == old(self).moves() + moves_of(actions@),
            final(self).state() == folded(old(self).state(), moves_of(actions@)),
            old(self).is_consistent() ==> final(self).is_consistent(),
    {
        let mut i: usize = 0;
        while i < actions.len()
            invariant
                i <= actions.len(),
                self.moves() == old(self).moves() + moves_of(actions@.take(i as int)),
                self.state() == folded(old(self).state(), moves_of(actions@.take(i as int))),
                old(self).is_consistent() ==> self.is_consistent(),
            decreases actions.len() - i,
        {
            proof {
                let done = moves_of(actions@.take(i as int));
                let m = actions@[i as int].as_move();
                assert(done.push(m) =~= moves_of(actions@.take(i + 1)));
                assert((old(self).moves() + done).push(m) =~= old(self).moves() + done.push(m));
                lemma_folded_push(old(self).state(), done, m);
            }
            self.make_move(actions[i]);
            i += 1;
        }
        assert(actions@.take(actions.len() as int) =~= actions@);
    }

    /// The word after one pass of reduction from left to right over its
    /// moves. The cube is kept: the moves that are left still reach it.
    pub fn normal_form(self) -> (w: Word<T>)
        ensures
            w.moves() == normalized(self.moves()),
            w.state() == self.state(),
            self.is_consistent() ==> w.is_consistent(),
    {
        let mut actions: Vec<Move> = Vec::new();
        let n = self.actions.len();
        let mut i: usize = 0;
        let mut first: Option<Move> = None;
        if n > 0 {
            first = Some(self.actions[0]);
            i = 1;
        }
        proof {
            if n > 0 {
                assert(seq![self.actions@[0]] + self.actions@.skip(1) =~= self.actions@);
            } else {
                assert(seq![] + self.actions@.skip(0) =~= self.actions@);
            }
        }
        loop
            invariant_except_break
                normalized(self.actions@) == actions@ + normalized(
                    (match first {
                        Some(m) => seq![m],
                        None => seq![],
                    }) + self.actions@.skip(i as int),
                ),
            invariant
                n == self.actions@.len(),
                i <= n,
                first is None ==> i == n,
            ensures
                actions@ == normalized(self.actions@),
            decreases n - i + (if first is Some { 1int } else { 0int }),
        {
            match first {
                None => {
                    assert(seq![] + self.actions@.skip(i as int) =~= seq![]);
                    assert(actions@ + seq![] =~= actions@);
                    break ;
                },
                Some(left) => {
                    let ghost rest = self.actions@.skip(i as int);
                    let ghost held = seq![left] + rest;
                    if i >= n {
                        assert(held =~= seq![left]);
                        assert(actions@ + seq![left] =~= actions@.push(left));
                        actions.push(left);
                        break ;
                    }
                    let right = self.actions[i];
                    i += 1;
                    proof {
                        assert(held[0] == left);
                        assert(held[1] == right);
                        assert(held.skip(2) =~= self.actions@.skip(i as int));
                        assert(held.skip(1) =~= seq![right] + self.actions@.skip(i as int));
                    }
                    match Move::reduce(left, right) {
                        (None, _) => {
                            if i < n {
                                first = Some(self.actions[i]);
                                proof {
                                    assert(self.actions@.skip(i as int) =~= seq![
                                        self.actions@[i as int],
                                    ] + self.actions@.skip(i + 1));
                                }
                                i += 1;
                            } else {
                                first = None;
                                proof {
                                    assert(seq![] + self.actions@.skip(i as int)
                                        =~= self.actions@.skip(i as int));
                                }
                            }
                        },
                        (Some(new_left), None) => {
                            first = Some(new_left);
                        },
                        (Some(same_left), Some(same_right)) => {
                            proof {
                                let tail = normalized(held.skip(1));
                                assert(actions@.push(same_left) + tail =~= actions@ + (seq![
                                    same_left,
                                ] + tail));
                            }
                            actions.push(same_left);
                            first = Some(same_right);
                        },
                    }
                },
            }
        }
        proof {
            lemma_normalized_reaches_same(solved(), self.actions@);
        }
        Word::from_parts_unchecked(self.cube, actions)
    }

    /// The word as text: its actions in round brackets, a blank between
    /// each two.
    pub fn to_string(&self) -> (text: String)
        ensures
            text@ == "("@ + joined(spelled_out::<T>(self.moves())) + ")"@,
    {
        let actions = self.as_actions();
        let mut text = "(".to_owned();
        let mut i: usize = 0;
        proof {
            assert("("@ + joined(actions@.take(0)) =~= "("@);
        }
        while i < actions.len()
            invariant
                i <= actions.len(),
                text@ == "("@ + joined(actions@.take(i as int)),
            decreases actions.len() - i,
        {
            let name = actions[i].to_string();
            proof {
                let done = actions@.take(i as int);
                let more = actions@.take(i + 1);
                assert(more.drop_last() =~= done);
                assert(more.last() == actions@[i as int]);
                if i == 0 {
                    assert("("@ + joined(done) + name@ =~= "("@ + joined(more));
                } else {
                    assert("("@ + joined(done) + " "@ + name@ =~= "("@ + joined(more));
                }
            }
            if i > 0 {
                text.append(" ");
            }
            text.append(name.as_str());
            i += 1;
        }
        assert(actions@.take(actions.len() as int) =~= actions@);
        text.append(")");
        text
    }

    /// The cube of the word.
    pub fn cube(&self) -> (c: &Cube<Position>)
        ensures
            c@ == self.state(),
    {
        &self.cube
    }
}

impl<T: Action> Clone for Word<T> {
    fn clone(&self) -> (w: Word<T>)
        ensures
            w.moves() == self.moves(),
            w.state() == self.state(),
    {
        let mut actions: Vec<Move> = Vec::new();
        let mut i: usize = 0;
        while i < self.actions.len()
            invariant
                i <= self.actions.len(),
                actions@ == self.actions@.take(i as int),
            decreases self.actions.len() - i,
        {
            actions.push(self.actions[i]);
            assert(self.actions@.take(i as int).push(self.actions@[i as int])
                =~= self.actions@.take(i + 1));
            i += 1;
        }
        assert(self.actions@.take(self.actions.len() as int) =~= self.actions@);
        Word { actions, cube: self.cube.clone(), _phantom: PhantomData }
    }
}

impl<T: Action> Default for Word<T> {
    fn default() -> (w: Word<T>)
        ensures
            w.moves() == Seq::<Move>::empty(),
            w.state() == solved(),
    {
        Word::new()
    }
}

} // verus!
