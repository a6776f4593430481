//! The book: a persistent index that records, for every cube state that
//! was ever reached, the least number of actions in which it was reached.
//!
//! The book lives in one tree of an embedded key-value store. A state is
//! filed under its packed orientations, thirteen bytes, and its record is
//! one byte of depth. Two more records say for which vocabulary the book
//! was written and that its keys are packed.

use std::marker::PhantomData;
use vstd::prelude::*;

use crate::action::{Action, Move, QuarterTurn, Turn};
use crate::codec::{
    codes, is_packing, is_symbol, lemma_packing_exists, lemma_packing_injective, packing,
    Packable,
};
use crate::cube::{lemma_moved_len, moved, solved, Cube, Position};
use crate::cubelet::{lemma_of_ordinal, Rotation};
use crate::error::ErrorKind;
use crate::store::{sound_depths, state_code, Store};
use crate::word::{
    folded, lemma_folded_len, lemma_folded_push, lemma_spelled_out_reaches_same, moves_of,
    spelled_out, Word,
};

verus! {

/// The embedded store, `sled::Db`: nothing of it is seen but what the
/// functions below say.
#[verifier::external_type_specification]
#[verifier::external_body]
pub struct ExDb(sled::Db);

/// One tree of keys and values in the store, `sled::Tree`. The book is
/// the only one to write its tree while it lives.
#[verifier::external_type_specification]
#[verifier::external_body]
pub struct ExTree(sled::Tree);

/// What the store reports when it cannot be read or written,
/// `sled::Error`. The book hands it on as `ErrorKind::Io`.
#[verifier::external_type_specification]
#[verifier::external_body]
pub struct ExStoreError(sled::Error);

/// What a tree of the store holds: the value filed under each key.
pub uninterp spec fn tree_contents(tree: sled::Tree) -> Map<Seq<u8>, Seq<u8>>;

/// Whether an open store was found where it was opened, rather than made
/// there. An open store keeps this as it was when it was opened.
pub uninterp spec fn store_found(db: sled::Db) -> bool;

/// The value under a key, if there is one.
pub open spec fn record_at(contents: Map<Seq<u8>, Seq<u8>>, key: Seq<u8>) -> Option<Seq<u8>> {
    if contents.dom().contains(key) {
        Some(contents[key])
    } else {
        None
    }
}

/// The bytes of a value that was read, if one was.
pub open spec fn bytes_of(found: Option<Vec<u8>>) -> Option<Seq<u8>> {
    match found {
        Some(value) => Some(value@),
        None => None,
    }
}

/// The depth that a record holds: its first byte. A record without bytes
/// holds none.
pub open spec fn depth_in(record: Option<Seq<u8>>) -> Option<u8> {
    match record {
        Some(value) => if value.len() > 0 {
            Some(value[0])
        } else {
            None
        },
        None => None,
    }
}

/// The depth filed under a key.
pub open spec fn depth_at(contents: Map<Seq<u8>, Seq<u8>>, key: Seq<u8>) -> Option<u8> {
    depth_in(record_at(contents, key))
}

/// The lesser of a depth on record, if there is one, and a new depth.
pub open spec fn least_depth(prior: Option<u8>, depth: u8) -> u8 {
    match prior {
        Some(old) => if old < depth {
            old
        } else {
            depth
        },
        None => depth,
    }
}

/// The record that takes the place of `prior` when `depth` is filed.
pub open spec fn merged_record(prior: Option<Seq<u8>>, depth: u8) -> Seq<u8> {
    seq![least_depth(depth_in(prior), depth)]
}

/// The key under which the vocabulary of a book is filed:
/// `this_books_action_type`.
pub open spec fn action_key() -> Seq<u8> {
    seq![116u8, 104u8, 105u8, 115u8, 95u8, 98u8, 111u8, 111u8, 107u8, 115u8, 95u8, 97u8, 99u8, 116u8, 105u8, 111u8, 110u8, 95u8, 116u8, 121u8, 112u8, 101u8]
}

/// The key under which the packing of the keys of a book is filed:
/// `this_books_packed_attribute`.
pub open spec fn packing_key() -> Seq<u8> {
    seq![116u8, 104u8, 105u8, 115u8, 95u8, 98u8, 111u8, 111u8, 107u8, 115u8, 95u8, 112u8, 97u8, 99u8, 107u8, 101u8, 100u8, 95u8, 97u8, 116u8, 116u8, 114u8, 105u8, 98u8, 117u8, 116u8, 101u8]
}

/// The record of a book whose keys are packed: `true`.
pub open spec fn packed_mark() -> Seq<u8> {
    seq![116u8, 114u8, 117u8, 101u8]
}

/// The key under which a state is filed: its orientations, packed.
pub open spec fn cube_key(s: Seq<Rotation>) -> Seq<u8> {
    packing(codes(s), 5)
}

/// What becomes of the record under one key while depths are filed that
/// are no less than `floor`. Either the record is as it was, or it is one
/// byte of depth under a state's key: the depth that it held before, or
/// one that is at least `floor` and less than any that it held before.
pub open spec fn record_relaxed(
    before: Map<Seq<u8>, Seq<u8>>,
    after: Map<Seq<u8>, Seq<u8>>,
    floor: int,
    key: Seq<u8>,
) -> bool {
    ||| record_at(after, key) == record_at(before, key)
    ||| {
        &&& key.len() == 13
        &&& after.dom().contains(key)
        &&& after[key].len() == 1
        &&& {
            ||| depth_at(before, key) == Some(after[key][0])
            ||| {
                &&& floor <= after[key][0]
                &&& depth_at(before, key) matches Some(old) ==> after[key][0] < old
            }
        }
    }
}

/// What becomes of the contents of a book while depths are filed that are
/// no less than `floor`: every record is as `record_relaxed` says.
pub open spec fn relaxed(
    before: Map<Seq<u8>, Seq<u8>>,
    after: Map<Seq<u8>, Seq<u8>>,
    floor: int,
) -> bool {
    forall|key: Seq<u8>| #[trigger] record_relaxed(before, after, floor, key)
}

/// The records of a new book for the vocabulary with the given label: the
/// label, the mark of packed keys, and the solved cube at depth 0.
pub open spec fn new_records(label: Seq<u8>) -> Map<Seq<u8>, Seq<u8>> {
    Map::<Seq<u8>, Seq<u8>>::empty().insert(action_key(), label).insert(
        packing_key(),
        packed_mark(),
    ).insert(cube_key(solved()), seq![0u8])
}

/// The verdict on a store that is to be opened as a book for a
/// vocabulary, given whether the store was there before, the two records
/// of its schema, and the depth on record for the solved cube.
pub open spec fn schema_verdict(
    label: Seq<u8>,
    recovered: bool,
    action: Option<Seq<u8>>,
    packed: Option<Seq<u8>>,
    solved_depth: Option<u8>,
) -> Result<(), ErrorKind> {
    if !recovered {
        Err(ErrorKind::NotFound)
    } else if action is None {
        Err(ErrorKind::Corrupt)
    } else if action != Some(label) {
        Err(ErrorKind::SchemaMismatch)
    } else if packed is None {
        Err(ErrorKind::Corrupt)
    } else if packed != Some(packed_mark()) {
        Err(ErrorKind::SchemaMismatch)
    } else if solved_depth is None {
        Err(ErrorKind::Corrupt)
    } else {
        Ok(())
    }
}

/// Opens the store at a path, or makes one there. Calls `sled::open`;
/// nothing is claimed of what comes back.
#[verifier::external_body]
fn store_open(path: &str) -> Result<sled::Db, sled::Error> {
    sled::open(path)
}

/// Removes the store at a path. Calls `sled::Config::open` on the path
/// with `temporary` set and drops what comes back: sled removes such a
/// store when it is dropped. Nothing is claimed of what is then on disk.
#[verifier::external_body]
fn store_discard(path: &str) {
    let _ = sled::Config::new().path(path).temporary(true).open();
}

/// Whether the store was there before it was opened. Calls
/// `sled::Db::was_recovered`, which reads what the store noted of
/// itself when it was opened: the answer is `store_found` of the store.
#[verifier::external_body]
fn store_was_recovered(db: &sled::Db) -> (found: bool)
    ensures
        found == store_found(*db),
{
    db.was_recovered()
}

/// Opens a tree of the store by its name. Calls `sled::Db::open_tree`;
/// nothing is claimed of what the tree holds.
#[verifier::external_body]
fn store_open_tree(db: &sled::Db, name: &[u8]) -> Result<sled::Tree, sled::Error> {
    db.open_tree(name)
}

/// The first key of a tree and its value. Calls `sled::Tree::first`:
/// where it succeeds, it gives a key that the tree holds and the value
/// under it, or nothing where the tree holds no key at all.
#[verifier::external_body]
fn tree_first(tree: &sled::Tree) -> (r: Result<Option<(Vec<u8>, Vec<u8>)>, sled::Error>)
    ensures
        r matches Ok(found) ==> match found {
            Some(pair) => record_at(tree_contents(*tree), pair.0@) == Some(pair.1@),
            None => tree_contents(*tree) == Map::<Seq<u8>, Seq<u8>>::empty(),
        },
{
    tree.first().map(|found| found.map(|(key, value)| (key.to_vec(), value.to_vec())))
}

/// The size of the files of the store. Calls `sled::Db::size_on_disk`;
/// nothing is claimed of the number.
#[verifier::external_body]
fn store_size_on_disk(db: &sled::Db) -> Result<u64, sled::Error> {
    db.size_on_disk()
}

/// Reads the value under a key. Calls `sled::Tree::get`: where it
/// succeeds, it gives the value that the tree holds under the key, or
/// nothing where the tree holds none.
#[verifier::external_body]
fn tree_get(tree: &sled::Tree, key: &[u8]) -> (r: Result<Option<Vec<u8>>, sled::Error>)
    ensures
        r matches Ok(found) ==> bytes_of(found) == record_at(tree_contents(*tree), key@),
{
    tree.get(key).map(|found| found.map(|value| value.to_vec()))
}

/// Files a value under a key. Calls `sled::Tree::insert`: where it
/// succeeds, the tree holds the value under the key and is otherwise as
/// it was, and the value that the key had before is given. Where it
/// fails, the tree is as it was, or as it is where the call succeeds: the
/// call changes what the tree holds in one step, and may fail before that
/// step or after it.
#[verifier::external_body]
fn tree_insert(tree: &mut sled::Tree, key: &[u8], value: &[u8]) -> (r: Result<
    Option<Vec<u8>>,
    sled::Error,
>)
    ensures
        r matches Ok(found) ==> bytes_of(found) == record_at(tree_contents(*old(tree)), key@)
            && tree_contents(*final(tree)) == tree_contents(*old(tree)).insert(key@, value@),
        r is Err ==> tree_contents(*final(tree)) == tree_contents(*old(tree)) || tree_contents(
            *final(tree),
        ) == tree_contents(*old(tree)).insert(key@, value@),
{
    tree.insert(key, value).map(|found| found.map(|value| value.to_vec()))
}

/// Files a depth under a key unless a lesser one is on record. Calls
/// `sled::Tree::fetch_and_update` with `merge_depth`: where it succeeds,
/// the tree holds under the key what `merge_depth` makes of the value that
/// the key had before, and is otherwise as it was; that earlier value is
/// given. Where it fails, the tree is as it was, or as it is where the
/// call succeeds: the call changes what the tree holds in one step, and
/// may fail before that step or after it.
#[verifier::external_body]
fn tree_fetch_least(tree: &mut sled::Tree, key: &[u8], depth: u8) -> (r: Result<
    Option<Vec<u8>>,
    sled::Error,
>)
    ensures
        r matches Ok(found) ==> bytes_of(found) == record_at(tree_contents(*old(tree)), key@)
            && tree_contents(*final(tree)) == tree_contents(*old(tree)).insert(
            key@,
            merged_record(bytes_of(found), depth),
        ),
        r is Err ==> tree_contents(*final(tree)) == tree_contents(*old(tree)) || tree_contents(
            *final(tree),
        ) == tree_contents(*old(tree)).insert(
            key@,
            merged_record(record_at(tree_contents(*old(tree)), key@), depth),
        ),
{
    tree.fetch_and_update(key, |prior| Some(merge_depth(prior, depth))).map(
        |found| found.map(|value| value.to_vec()),
    )
}


/// The bytes of a number, least significant first, as many as `width`.
pub open spec fn le_bytes(value: nat, width: nat) -> Seq<u8>
    decreases width,
{
    if width == 0 {
        seq![]
    } else {
        seq![(value % 256) as u8] + le_bytes(value / 256, (width - 1) as nat)
    }
}

/// The number of which the bytes are the digits to base 256, least
/// significant first.
pub open spec fn le_value(bytes: Seq<u8>) -> nat
    decreases bytes.len(),
{
    if bytes.len() == 0 {
        0
    } else {
        bytes[0] as nat + 256 * le_value(bytes.skip(1))
    }
}

/// The least number that `width` bytes cannot hold.
pub open spec fn le_limit(width: nat) -> nat
    decreases width,
{
    if width == 0 {
        1
    } else {
        256 * le_limit((width - 1) as nat)
    }
}

/// A number that fits in its bytes is read back from them.
pub proof fn lemma_le_round_trip(value: nat, width: nat)
    requires
        value < le_limit(width),
    ensures
        le_bytes(value, width).len() == width,
        le_value(le_bytes(value, width)) == value,
    decreases width,
{
    if width > 0 {
        let rest = le_bytes(value / 256, (width - 1) as nat);
        lemma_le_round_trip(value / 256, (width - 1) as nat);
        assert(le_bytes(value, width).skip(1) =~= rest);
    }
}

/// An unsigned depth of a fixed width, written to a record least
/// significant byte first.
pub trait Int: Copy + Sized {
    /// The number.
    spec fn as_nat(self) -> nat;

    /// The number of bytes of a record.
    spec fn byte_width() -> nat;

    /// The record of a depth.
    fn to_bytes(&self) -> (bytes: Vec<u8>)
        ensures
            bytes@ == le_bytes(self.as_nat(), Self::byte_width()),
    ;

    /// The depth of a record of the right width.
    fn from_bytes(bytes: &[u8]) -> (depth: Self)
        requires
            bytes@.len() == Self::byte_width(),
        ensures
            depth.as_nat() == le_value(bytes@),
    ;
}

impl Int for u8 {
    open spec fn as_nat(self) -> nat {
        self as nat
    }

    open spec fn byte_width() -> nat {
        1
    }

    fn to_bytes(&self) -> (bytes: Vec<u8>) {
        let bytes = vec![*self];
        proof {
            reveal_with_fuel(le_bytes, 2);
            assert(bytes@ =~= le_bytes(*self as nat, 1));
        }
        bytes
    }

    fn from_bytes(bytes: &[u8]) -> (depth: u8) {
        proof {
            reveal_with_fuel(le_value, 2);
        }
        bytes[0]
    }
}

impl Int for u16 {
    open spec fn as_nat(self) -> nat {
        self as nat
    }

    open spec fn byte_width() -> nat {
        2
    }

    fn to_bytes(&self) -> (bytes: Vec<u8>) {
        let bytes = vec![(*self % 256) as u8, (*self / 256) as u8];
        proof {
            reveal_with_fuel(le_bytes, 3);
            assert(bytes@ =~= le_bytes(*self as nat, 2));
        }
        bytes
    }

    fn from_bytes(bytes: &[u8]) -> (depth: u16) {
        proof {
            reveal_with_fuel(le_value, 3);
            assert(bytes@.skip(1)[0] == bytes@[1]);
        }
        bytes[0] as u16 + 256 * (bytes[1] as u16)
    }
}

impl Int for u32 {
    open spec fn as_nat(self) -> nat {
        self as nat
    }

    open spec fn byte_width() -> nat {
        4
    }

    fn to_bytes(&self) -> (bytes: Vec<u8>) {
        let v = *self;
        let bytes = vec![
            (v % 256) as u8,
            (v / 256 % 256) as u8,
            (v / 65536 % 256) as u8,
            (v / 16777216) as u8,
        ];
        proof {
            reveal_with_fuel(le_bytes, 5);
            assert(v as nat / 256 / 256 == v as nat / 65536);
            assert(v as nat / 256 / 256 / 256 == v as nat / 16777216);
            assert(bytes@ =~= le_bytes(v as nat, 4));
        }
        bytes
    }

    fn from_bytes(bytes: &[u8]) -> (depth: u32) {
        proof {
            reveal_with_fuel(le_value, 5);
            assert(bytes@.skip(1)[0] == bytes@[1]);
            assert(bytes@.skip(1).skip(1) =~= bytes@.skip(2));
            assert(bytes@.skip(2)[0] == bytes@[2]);
            assert(bytes@.skip(2).skip(1) =~= bytes@.skip(3));
            assert(bytes@.skip(3)[0] == bytes@[3]);
            assert(bytes@.skip(1).skip(1).skip(1) =~= bytes@.skip(3));
        }
        bytes[0] as u32 + 256 * (bytes[1] as u32) + 65536 * (bytes[2] as u32) + 16777216 * (
        bytes[3] as u32)
    }
}

/// The record that takes the place of `prior` when `depth` is filed: one
/// byte, the lesser of the depth on record and the new one.
pub fn merge_depth(prior: Option<&[u8]>, depth: u8) -> (record: Vec<u8>)
    ensures
        record@ == merged_record(
            match prior {
                Some(bytes) => Some(bytes@),
                None => None,
            },
            depth,
        ),
{
    let least = match prior {
        Some(bytes) => if bytes.len() > 0 && bytes[0] < depth {
            bytes[0]
        } else {
            depth
        },
        None => depth,
    };
    let record = least.to_bytes();
    proof {
        reveal_with_fuel(le_bytes, 2);
        assert(record@ =~= seq![least]);
    }
    record
}

/// The depth that a record holds, if it holds one.
pub fn read_depth(record: &Option<Vec<u8>>) -> (depth: Option<u8>)
    ensures
        depth == depth_in(bytes_of(*record)),
{
    match record {
        Some(value) => if value.len() > 0 {
            Some(value[0])
        } else {
            None
        },
        None => None,
    }
}

/// Whether two byte strings are the same.
pub fn same_bytes(a: &[u8], b: &[u8]) -> (same: bool)
    ensures
        same == (a@ == b@),
{
    if a.len() != b.len() {
        return false;
    }
    let mut i: usize = 0;
    while i < a.len()
        invariant
            i <= a.len(),
            a@.len() == b@.len(),
            forall|k: int| 0 <= k < i ==> a@[k] == b@[k],
        decreases a.len() - i,
    {
        if a[i] != b[i] {
            return false;
        }
        i += 1;
    }
    assert(a@ =~= b@);
    true
}

/// The key `this_books_action_type`.
fn action_entry() -> (key: Vec<u8>)
    ensures
        key@ == action_key(),
        key@.len() == 22,
{
    let key = vec![116u8, 104u8, 105u8, 115u8, 95u8, 98u8, 111u8, 111u8, 107u8, 115u8, 95u8, 97u8, 99u8, 116u8, 105u8, 111u8, 110u8, 95u8, 116u8, 121u8, 112u8, 101u8];
    assert(key@ =~= action_key());
    key
}

/// The key `this_books_packed_attribute`.
fn packing_entry() -> (key: Vec<u8>)
    ensures
        key@ == packing_key(),
        key@.len() == 27,
{
    let key = vec![116u8, 104u8, 105u8, 115u8, 95u8, 98u8, 111u8, 111u8, 107u8, 115u8, 95u8, 112u8, 97u8, 99u8, 107u8, 101u8, 100u8, 95u8, 97u8, 116u8, 116u8, 114u8, 105u8, 98u8, 117u8, 116u8, 101u8];
    assert(key@ =~= packing_key());
    key
}

/// The record `true`.
fn packed_entry() -> (mark: Vec<u8>)
    ensures
        mark@ == packed_mark(),
{
    let mark = vec![116u8, 114u8, 117u8, 101u8];
    assert(mark@ =~= packed_mark());
    mark
}

/// The letters of the name of the tree in which a book lives.
pub open spec fn tree_label() -> Seq<u8> {
    seq![98u8, 111u8, 111u8, 107u8]
}

/// The name of the tree in which a book lives: `book`.
fn tree_name() -> (name: Vec<u8>)
    ensures
        name@ == tree_label(),
{
    let name = vec![98u8, 111u8, 111u8, 107u8];
    assert(name@ =~= tree_label());
    name
}

/// Judges a store that is to be opened as a book for the vocabulary with
/// the given label. A store that was not there before is `NotFound`. A
/// store without one of the two records of its schema, or without a depth
/// for the solved cube, is `Corrupt`. A store written for another
/// vocabulary, or with keys that are not packed, is a `SchemaMismatch`.
pub fn check_schema(
    label: &[u8],
    recovered: bool,
    action: &Option<Vec<u8>>,
    packed: &Option<Vec<u8>>,
    solved_depth: Option<u8>,
) -> (verdict: Result<(), ErrorKind>)
    ensures
        verdict == schema_verdict(
            label@,
            recovered,
            bytes_of(*action),
            bytes_of(*packed),
            solved_depth,
        ),
{
    if !recovered {
        return Err(ErrorKind::NotFound);
    }
    match action {
        None => {
            return Err(ErrorKind::Corrupt);
        },
        Some(found) => {
            if !same_bytes(found.as_slice(), label) {
                return Err(ErrorKind::SchemaMismatch);
            }
        },
    }
    match packed {
        None => {
            return Err(ErrorKind::Corrupt);
        },
        Some(found) => {
            let mark = packed_entry();
            if !same_bytes(found.as_slice(), mark.as_slice()) {
                return Err(ErrorKind::SchemaMismatch);
            }
        },
    }
    match solved_depth {
        None => Err(ErrorKind::Corrupt),
        Some(_) => Ok(()),
    }
}

/// Depths are filed in turn: what two rounds of filing do to the contents
/// is what one round does, with the lesser floor.
pub proof fn lemma_relaxed_transitive(
    first: Map<Seq<u8>, Seq<u8>>,
    second: Map<Seq<u8>, Seq<u8>>,
    third: Map<Seq<u8>, Seq<u8>>,
    floor1: int,
    floor2: int,
    floor: int,
)
    requires
        relaxed(first, second, floor1),
        relaxed(second, third, floor2),
        floor <= floor1,
        floor <= floor2,
    ensures
        relaxed(first, third, floor),
{
    assert forall|key: Seq<u8>| #[trigger] record_relaxed(first, third, floor, key) by {
        assert(record_relaxed(first, second, floor1, key));
        assert(record_relaxed(second, third, floor2, key));
    }
}

/// A depth that was filed for a state is not exceeded afterwards: once a
/// state is on record at no more than some depth, it stays on record, at
/// no more than that depth, whatever is filed later.
pub proof fn lemma_submitted_depth_stays(
    before: Map<Seq<u8>, Seq<u8>>,
    after: Map<Seq<u8>, Seq<u8>>,
    floor: int,
    s: Seq<Rotation>,
    submitted: u8,
)
    requires
        relaxed(before, after, floor),
        depth_at(before, cube_key(s)) matches Some(on_record) && on_record <= submitted,
    ensures
        depth_at(after, cube_key(s)) matches Some(on_record) && on_record <= submitted,
{
    lemma_relaxed_monotone(before, after, floor, cube_key(s));
}

/// Nothing filed leaves the contents relaxed.
pub proof fn lemma_relaxed_same(contents: Map<Seq<u8>, Seq<u8>>, floor: int)
    ensures
        relaxed(contents, contents, floor),
{
    assert forall|key: Seq<u8>| #[trigger] record_relaxed(contents, contents, floor, key) by {}
}

/// The depth on record for a key never grows, and never goes away, while
/// depths are filed.
pub proof fn lemma_relaxed_monotone(
    before: Map<Seq<u8>, Seq<u8>>,
    after: Map<Seq<u8>, Seq<u8>>,
    floor: int,
    key: Seq<u8>,
)
    requires
        relaxed(before, after, floor),
    ensures
        before.dom().contains(key) ==> after.dom().contains(key),
        depth_at(before, key) matches Some(old) ==> depth_at(after, key) matches Some(new) && new
            <= old,
        depth_at(after, key) matches Some(new) ==> depth_at(before, key) == Some(new) || floor
            <= new,
{
    assert(record_relaxed(before, after, floor, key));
}

/// Filing the lesser of a depth and the one on record under a state's key
/// relaxes the contents.
pub proof fn lemma_relaxed_insert(
    before: Map<Seq<u8>, Seq<u8>>,
    key: Seq<u8>,
    depth: u8,
    floor: int,
)
    requires
        key.len() == 13,
        floor <= depth,
    ensures
        relaxed(
            before,
            before.insert(key, merged_record(record_at(before, key), depth)),
            floor,
        ),
{
    let after = before.insert(key, merged_record(record_at(before, key), depth));
    assert forall|k: Seq<u8>| #[trigger] record_relaxed(before, after, floor, k) by {
        if k != key {
            assert(record_at(after, k) == record_at(before, k));
        }
    }
}


/// The state that the `i`-th action of a vocabulary leads to from a
/// state.
pub open spec fn neighbor<A: Action>(s: Seq<Rotation>, i: int) -> Seq<Rotation> {
    moved(s, A::vocabulary()[i].as_move())
}

/// Whether the depth on record for a state has gone down.
pub open spec fn lowered_at(
    before: Map<Seq<u8>, Seq<u8>>,
    after: Map<Seq<u8>, Seq<u8>>,
    s: Seq<Rotation>,
) -> bool {
    depth_at(before, cube_key(s)) matches Some(old) && depth_at(after, cube_key(s)) matches Some(
        new,
    ) && new < old
}

/// Whether the state that the `i`-th action leads to from a state is on
/// record no more than one deeper than the state itself.
pub open spec fn within_one<A: Action>(
    contents: Map<Seq<u8>, Seq<u8>>,
    s: Seq<Rotation>,
    i: int,
) -> bool {
    depth_at(contents, cube_key(s)) matches Some(depth) && depth_at(
        contents,
        cube_key(neighbor::<A>(s, i)),
    ) matches Some(near) && near <= depth + 1
}

/// Whether the news has gone round: every state whose depth has gone
/// down has every state next to it on record no more than one deeper.
pub open spec fn settled<A: Action>(
    before: Map<Seq<u8>, Seq<u8>>,
    after: Map<Seq<u8>, Seq<u8>>,
) -> bool {
    forall|s: Seq<Rotation>, i: int|
        s.len() == 20 && 0 <= i < A::vocabulary().len() && lowered_at(before, after, s)
            ==> #[trigger] within_one::<A>(after, s, i)
}

/// Whether a state is reached from the solved cube by exactly `depth`
/// actions of a vocabulary.
pub open spec fn reachable_in<A: Action>(s: Seq<Rotation>, depth: int) -> bool {
    exists|path: Seq<A>| #[trigger] path.len() == depth && folded(solved(), moves_of(path)) == s
}

/// Whether every depth on record is the length of a way that there is:
/// no state is on record nearer than it can be reached.
pub open spec fn sound<A: Action>(contents: Map<Seq<u8>, Seq<u8>>) -> bool {
    forall|s: Seq<Rotation>|
        s.len() == 20 ==> (#[trigger] depth_at(contents, cube_key(s)) matches Some(depth)
            ==> reachable_in::<A>(s, depth as int))
}

/// The keys tell the states apart.
pub proof fn lemma_cube_key_injective(a: Seq<Rotation>, b: Seq<Rotation>)
    requires
        a.len() == 20,
        b.len() == 20,
        cube_key(a) == cube_key(b),
    ensures
        a == b,
{
    lemma_packing_exists(codes(a), 5);
    lemma_packing_exists(codes(b), 5);
    <Rotation as Packable>::lemma_codes();
    assert forall|k: int| 0 <= k < codes(a).len() implies is_symbol(#[trigger] codes(a)[k], 5) by {
        assert(a[k].is_packable());
    }
    assert forall|k: int| 0 <= k < codes(b).len() implies is_symbol(#[trigger] codes(b)[k], 5) by {
        assert(b[k].is_packable());
    }
    lemma_packing_injective(codes(a), codes(b), 5, cube_key(a));
    assert forall|k: int| 0 <= k < 20 implies a[k] == b[k] by {
        assert(codes(a)[k] == codes(b)[k]);
        lemma_of_ordinal(a[k]);
        lemma_of_ordinal(b[k]);
    }
    assert(a =~= b);
}

/// The key of a state has thirteen bytes.
pub proof fn lemma_cube_key_len(s: Seq<Rotation>)
    requires
        s.len() == 20,
    ensures
        cube_key(s).len() == 13,
{
    lemma_packing_exists(codes(s), 5);
}

/// Where nothing is filed, the news has gone round.
pub proof fn lemma_settled_same<A: Action>(contents: Map<Seq<u8>, Seq<u8>>)
    ensures
        settled::<A>(contents, contents),
{
}

/// Where the news has gone round in each of two rounds of filing, it has
/// gone round in both together.
pub proof fn lemma_settled_transitive<A: Action>(
    first: Map<Seq<u8>, Seq<u8>>,
    second: Map<Seq<u8>, Seq<u8>>,
    third: Map<Seq<u8>, Seq<u8>>,
    floor1: int,
    floor2: int,
)
    requires
        relaxed(first, second, floor1),
        relaxed(second, third, floor2),
        settled::<A>(first, second),
        settled::<A>(second, third),
    ensures
        settled::<A>(first, third),
{
    assert forall|s: Seq<Rotation>, i: int|
        s.len() == 20 && 0 <= i < A::vocabulary().len() && lowered_at(
            first,
            third,
            s,
        ) implies #[trigger] within_one::<A>(third, s, i) by {
        lemma_relaxed_monotone(first, second, floor1, cube_key(s));
        lemma_relaxed_monotone(second, third, floor2, cube_key(s));
        if !lowered_at(second, third, s) {
            assert(lowered_at(first, second, s));
            assert(within_one::<A>(second, s, i));
            lemma_relaxed_monotone(second, third, floor2, cube_key(neighbor::<A>(s, i)));
        }
    }
}

/// Filing a depth for one state lowers the depth of no other state.
pub proof fn lemma_insert_lowers_one(
    before: Map<Seq<u8>, Seq<u8>>,
    cube: Seq<Rotation>,
    depth: u8,
    s: Seq<Rotation>,
)
    requires
        cube.len() == 20,
        s.len() == 20,
        lowered_at(
            before,
            before.insert(cube_key(cube), seq![least_depth(depth_at(before, cube_key(cube)), depth)]),
            s,
        ),
    ensures
        s == cube,
        depth_at(before, cube_key(cube)) matches Some(prior) && depth < prior,
{
    if cube_key(s) == cube_key(cube) {
        lemma_cube_key_injective(s, cube);
    }
}

/// Where a depth is filed for a state for which a greater one was on
/// record, and the states next to it are then filed at one more, the news
/// has gone round.
pub proof fn lemma_settled_by_relaxing<A: Action>(
    before: Map<Seq<u8>, Seq<u8>>,
    filed: Map<Seq<u8>, Seq<u8>>,
    after: Map<Seq<u8>, Seq<u8>>,
    cube: Seq<Rotation>,
    depth: u8,
)
    requires
        cube.len() == 20,
        depth < 255,
        filed == before.insert(
            cube_key(cube),
            seq![least_depth(depth_at(before, cube_key(cube)), depth)],
        ),
        relaxed(filed, after, depth + 1),
        settled::<A>(filed, after),
        forall|i: int|
            0 <= i < A::vocabulary().len() ==> (depth_at(
                after,
                cube_key(moved(cube, (#[trigger] A::vocabulary()[i]).as_move())),
            ) matches Some(near) && near <= depth + 1),
    ensures
        settled::<A>(before, after),
{
    assert forall|s: Seq<Rotation>, i: int|
        s.len() == 20 && 0 <= i < A::vocabulary().len() && lowered_at(
            before,
            after,
            s,
        ) implies #[trigger] within_one::<A>(after, s, i) by {
        lemma_relaxed_monotone(filed, after, depth + 1, cube_key(s));
        if cube_key(s) == cube_key(cube) {
            lemma_cube_key_injective(s, cube);
            let a = A::vocabulary()[i];
            assert(neighbor::<A>(s, i) == moved(cube, a.as_move()));
            assert(depth_at(filed, cube_key(cube)) matches Some(on_record) && on_record <= depth);
        } else {
            assert(depth_at(filed, cube_key(s)) == depth_at(before, cube_key(s)));
            assert(lowered_at(filed, after, s));
        }
    }
}

/// Where a depth is filed for a state and nothing else is done, the news
/// has gone round unless the depth of that state went down.
pub proof fn lemma_settled_by_filing<A: Action>(
    before: Map<Seq<u8>, Seq<u8>>,
    cube: Seq<Rotation>,
    depth: u8,
)
    requires
        cube.len() == 20,
        !(depth_at(before, cube_key(cube)) matches Some(prior) && depth < prior),
    ensures
        settled::<A>(
            before,
            before.insert(
                cube_key(cube),
                seq![least_depth(depth_at(before, cube_key(cube)), depth)],
            ),
        ),
{
    let after = before.insert(
        cube_key(cube),
        seq![least_depth(depth_at(before, cube_key(cube)), depth)],
    );
    assert forall|s: Seq<Rotation>, i: int|
        s.len() == 20 && 0 <= i < A::vocabulary().len() && lowered_at(
            before,
            after,
            s,
        ) implies #[trigger] within_one::<A>(after, s, i) by {
        lemma_insert_lowers_one(before, cube, depth, s);
    }
}

/// One more action leads one action farther.
pub proof fn lemma_reachable_push<A: Action>(s: Seq<Rotation>, depth: int, action: A)
    requires
        reachable_in::<A>(s, depth),
    ensures
        reachable_in::<A>(moved(s, action.as_move()), depth + 1),
{
    let path = choose|path: Seq<A>| #[trigger]
        path.len() == depth && folded(solved(), moves_of(path)) == s;
    let longer = path.push(action);
    assert(moves_of(longer) =~= moves_of(path).push(action.as_move()));
    lemma_folded_push(solved(), moves_of(path), action.as_move());
    assert(longer.len() == depth + 1);
}

/// The solved cube is reached by no action at all.
pub proof fn lemma_reachable_solved<A: Action>()
    ensures
        reachable_in::<A>(solved(), 0),
{
    let path = Seq::<A>::empty();
    assert(moves_of(path) =~= Seq::<Move>::empty());
    assert(path.len() == 0);
}

/// Filing, for a state, a depth at which it is reached keeps the records
/// sound.
pub proof fn lemma_sound_insert<A: Action>(
    before: Map<Seq<u8>, Seq<u8>>,
    cube: Seq<Rotation>,
    depth: u8,
)
    requires
        cube.len() == 20,
        sound::<A>(before),
        reachable_in::<A>(cube, depth as int),
    ensures
        sound::<A>(
            before.insert(
                cube_key(cube),
                seq![least_depth(depth_at(before, cube_key(cube)), depth)],
            ),
        ),
{
    let after = before.insert(
        cube_key(cube),
        seq![least_depth(depth_at(before, cube_key(cube)), depth)],
    );
    assert forall|s: Seq<Rotation>| s.len() == 20 implies (#[trigger] depth_at(
        after,
        cube_key(s),
    ) matches Some(on_record) ==> reachable_in::<A>(s, on_record as int)) by {
        if cube_key(s) == cube_key(cube) {
            lemma_cube_key_injective(s, cube);
            assert(depth_at(before, cube_key(cube)) matches Some(prior) ==> reachable_in::<A>(
                cube,
                prior as int,
            ));
        } else {
            assert(depth_at(after, cube_key(s)) == depth_at(before, cube_key(s)));
        }
    }
}


/// Whether the news has gone round everywhere: the solved cube is on
/// record at depth 0, and every state on record has every state next to
/// it on record no more than one deeper.
pub open spec fn closed<A: Action>(contents: Map<Seq<u8>, Seq<u8>>) -> bool {
    &&& depth_at(contents, cube_key(solved())) == Some(0u8)
    &&& forall|s: Seq<Rotation>, i: int|
        s.len() == 20 && 0 <= i < A::vocabulary().len() && depth_at(contents, cube_key(s)) is Some
            ==> #[trigger] within_one::<A>(contents, s, i)
}

/// Whether an action is one of its vocabulary.
pub open spec fn is_listed<A: Action>(action: A) -> bool {
    exists|i: int| 0 <= i < A::vocabulary().len() && #[trigger] A::vocabulary()[i] == action
}

/// Whether every action of a path is one of its vocabulary.
pub open spec fn in_vocabulary<A: Action>(path: Seq<A>) -> bool {
    forall|j: int| 0 <= j < path.len() ==> is_listed(#[trigger] path[j])
}

/// Where the news has gone round everywhere, no state is on record deeper
/// than it can be reached: the state at the end of any path is on record
/// at no more than the length of the path.
pub proof fn lemma_closed_is_least<A: Action>(contents: Map<Seq<u8>, Seq<u8>>, path: Seq<A>)
    requires
        closed::<A>(contents),
        in_vocabulary(path),
    ensures
        depth_at(contents, cube_key(folded(solved(), moves_of(path)))) matches Some(on_record)
            && on_record <= path.len(),
        folded(solved(), moves_of(path)).len() == 20,
    decreases path.len(),
{
    if path.len() == 0 {
        assert(moves_of(path) =~= Seq::<Move>::empty());
    } else {
        let front = path.drop_last();
        let last = path.last();
        assert forall|j: int| 0 <= j < front.len() implies is_listed(#[trigger] front[j]) by {
            assert(front[j] == path[j]);
        }
        lemma_closed_is_least::<A>(contents, front);
        let before = folded(solved(), moves_of(front));
        assert(is_listed(path[path.len() - 1]));
        let i = choose|i: int| 0 <= i < A::vocabulary().len() && #[trigger] A::vocabulary()[i] == last;
        assert(within_one::<A>(contents, before, i));
        assert(moves_of(path) =~= moves_of(front).push(last.as_move()));
        lemma_folded_push(solved(), moves_of(front), last.as_move());
        lemma_moved_len(before, last.as_move());
    }
}

/// Where the records are sound and the news has gone round everywhere,
/// the depth on record for a state is the least number of actions in
/// which it is reached: it is the length of a path to the state, and no
/// path of the vocabulary to the state is shorter.
pub proof fn lemma_closed_sound_is_exact<A: Action>(
    contents: Map<Seq<u8>, Seq<u8>>,
    s: Seq<Rotation>,
    path: Seq<A>,
)
    requires
        sound::<A>(contents),
        closed::<A>(contents),
        s.len() == 20,
        depth_at(contents, cube_key(s)) is Some,
        in_vocabulary(path),
        folded(solved(), moves_of(path)) == s,
    ensures
        reachable_in::<A>(s, depth_at(contents, cube_key(s))->Some_0 as int),
        depth_at(contents, cube_key(s))->Some_0 <= path.len(),
{
    lemma_closed_is_least::<A>(contents, path);
}

/// A new book is sound: it holds the solved cube alone, where it is.
pub proof fn lemma_new_records_sound<A: Action>()
    ensures
        sound::<A>(new_records(A::label())),
{
    let records = new_records(A::label());
    lemma_reachable_solved::<A>();
    lemma_cube_key_len(solved());
    assert forall|s: Seq<Rotation>| s.len() == 20 implies (#[trigger] depth_at(
        records,
        cube_key(s),
    ) matches Some(depth) ==> reachable_in::<A>(s, depth as int)) by {
        lemma_cube_key_len(s);
        assert(action_key().len() == 22);
        assert(packing_key().len() == 27);
        if records.dom().contains(cube_key(s)) {
            assert(cube_key(s) == cube_key(solved()));
            lemma_cube_key_injective(s, solved());
        }
    }
}

/// A cube on record whose neighbors are being filed: the cube, the depth
/// at which it is on record, and the number of the next neighbor.
pub struct Frame {
    pub cube: Cube<Position>,
    pub depth: u8,
    pub next: usize,
}

/// Whether a frame is as the records say: its cube is on record at its
/// depth, and the neighbors that were dealt with are on record no more
/// than one deeper.
pub open spec fn frame_ok<A: Action>(contents: Map<Seq<u8>, Seq<u8>>, frame: Frame) -> bool {
    &&& frame.cube@.len() == 20
    &&& frame.depth < 255
    &&& frame.next <= A::vocabulary().len()
    &&& depth_at(contents, cube_key(frame.cube@)) == Some(frame.depth)
    &&& forall|j: int| 0 <= j < frame.next ==> #[trigger] within_one::<A>(contents, frame.cube@, j)
}

/// Whether the frames of a round of filing are in order: each is as the
/// records say, and each is one deeper than the one before it.
pub open spec fn frames_ok<A: Action>(
    contents: Map<Seq<u8>, Seq<u8>>,
    frames: Seq<Frame>,
    depth: int,
) -> bool {
    forall|k: int|
        0 <= k < frames.len() ==> frame_ok::<A>(contents, #[trigger] frames[k]) && frames[k].depth
            == depth + k
}

/// Whether a frame has the `i`-th neighbor of a state yet to deal with.
pub open spec fn waits(frame: Frame, s: Seq<Rotation>, i: int) -> bool {
    frame.cube@ == s && frame.next <= i
}

/// Whether one of the frames has the `i`-th neighbor of a state yet to
/// deal with.
pub open spec fn pending(frames: Seq<Frame>, s: Seq<Rotation>, i: int) -> bool {
    exists|k: int| 0 <= k < frames.len() && waits(#[trigger] frames[k], s, i)
}

/// Whether the news has gone round but for what the frames have yet to
/// deal with.
pub open spec fn settled_but<A: Action>(
    before: Map<Seq<u8>, Seq<u8>>,
    after: Map<Seq<u8>, Seq<u8>>,
    frames: Seq<Frame>,
) -> bool {
    forall|s: Seq<Rotation>, i: int|
        s.len() == 20 && 0 <= i < A::vocabulary().len() && lowered_at(before, after, s)
            ==> #[trigger] within_one::<A>(after, s, i) || pending(frames, s, i)
}

/// A power of a number.
pub open spec fn power(base: nat, exponent: nat) -> nat
    decreases exponent,
{
    if exponent == 0 {
        1
    } else {
        base * power(base, (exponent - 1) as nat)
    }
}

/// The work that a cube at a depth may yet cause when it has `next` of
/// its neighbors behind it, counted so that a cube with one neighbor to go
/// weighs more than all that this neighbor can cause.
pub open spec fn weight(next: nat, depth: nat, actions: nat) -> nat {
    ((actions + 1 - next) as nat) * power(actions + 2, (255 - depth) as nat)
}

/// The work that a frame may yet cause.
pub open spec fn frame_load(frame: Frame, actions: nat) -> nat {
    weight(frame.next as nat, frame.depth as nat, actions)
}

/// The work that the frames may yet cause.
pub open spec fn load(frames: Seq<Frame>, actions: nat) -> nat
    decreases frames.len(),
{
    if frames.len() == 0 {
        0
    } else {
        load(frames.drop_last(), actions) + frame_load(frames.last(), actions)
    }
}

/// A power of a positive number is positive.
pub proof fn lemma_power_positive(base: nat, exponent: nat)
    requires
        base > 0,
    ensures
        power(base, exponent) > 0,
    decreases exponent,
{
    if exponent > 0 {
        lemma_power_positive(base, (exponent - 1) as nat);
        assert(base * power(base, (exponent - 1) as nat) > 0) by (nonlinear_arith)
            requires
                base > 0,
                power(base, (exponent - 1) as nat) > 0,
        ;
    }
}

/// A cube that goes on to its next neighbor, and the neighbor that it may
/// open a frame for, weigh less together than the cube did; and a cube
/// weighs something as long as it has a frame.
pub proof fn lemma_weight_step(next: nat, depth: nat, actions: nat)
    requires
        next <= actions,
        depth <= 255,
    ensures
        weight(next, depth, actions) > 0,
        next < actions ==> weight(next + 1, depth, actions) < weight(next, depth, actions),
        next < actions && depth < 255 ==> weight(next + 1, depth, actions) + weight(
            0,
            depth + 1,
            actions,
        ) < weight(next, depth, actions),
{
    let base = actions + 2;
    let high = power(base, (255 - depth) as nat);
    lemma_power_positive(base, (255 - depth) as nat);
    let left = (actions + 1 - next) as nat;
    assert(left * high > 0) by (nonlinear_arith)
        requires
            high > 0,
            left >= 1,
    ;
    if next < actions {
        assert((left - 1) * high < left * high) by (nonlinear_arith)
            requires
                high > 0,
                left >= 1,
        ;
        if depth < 255 {
            let low = power(base, (254 - depth) as nat);
            assert(high == base * low);
            lemma_power_positive(base, (254 - depth) as nat);
            assert((left - 1) * high + (actions + 1) * low < left * high) by (nonlinear_arith)
                requires
                    high == (actions + 2) * low,
                    low > 0,
                    left >= 1,
            ;
        }
    }
}

/// A frame stays as the records say when a depth greater than its own is
/// filed for some state.
pub proof fn lemma_frame_kept<A: Action>(
    before: Map<Seq<u8>, Seq<u8>>,
    frame: Frame,
    near: Seq<Rotation>,
    depth: u8,
)
    requires
        frame_ok::<A>(before, frame),
        near.len() == 20,
        depth > frame.depth,
    ensures
        frame_ok::<A>(
            before.insert(
                cube_key(near),
                seq![least_depth(depth_at(before, cube_key(near)), depth)],
            ),
            frame,
        ),
{
    let after = before.insert(
        cube_key(near),
        seq![least_depth(depth_at(before, cube_key(near)), depth)],
    );
    lemma_cube_key_len(near);
    lemma_relaxed_insert(before, cube_key(near), depth, depth as int);
    if cube_key(frame.cube@) == cube_key(near) {
        lemma_cube_key_injective(frame.cube@, near);
    }
    assert(depth_at(after, cube_key(frame.cube@)) == Some(frame.depth));
    assert forall|j: int| 0 <= j < frame.next implies #[trigger] within_one::<A>(
        after,
        frame.cube@,
        j,
    ) by {
        assert(within_one::<A>(before, frame.cube@, j));
        lemma_relaxed_monotone(
            before,
            after,
            depth as int,
            cube_key(neighbor::<A>(frame.cube@, j)),
        );
    }
}

/// The news stays gone round, but for what the frames have yet to deal
/// with, when a depth is filed for a state and a frame is opened for it
/// where its depth went down.
pub proof fn lemma_settled_but_kept<A: Action>(
    start: Map<Seq<u8>, Seq<u8>>,
    before: Map<Seq<u8>, Seq<u8>>,
    frames: Seq<Frame>,
    opened: Seq<Frame>,
    near: Cube<Position>,
    depth: u8,
    floor: int,
)
    requires
        relaxed(start, before, floor),
        settled_but::<A>(start, before, frames),
        near@.len() == 20,
        opened == if depth_at(before, cube_key(near@)) matches Some(prior) && depth < prior {
            frames.push(Frame { cube: near, depth, next: 0 })
        } else {
            frames
        },
    ensures
        settled_but::<A>(
            start,
            before.insert(
                cube_key(near@),
                seq![least_depth(depth_at(before, cube_key(near@)), depth)],
            ),
            opened,
        ),
{
    let after = before.insert(
        cube_key(near@),
        seq![least_depth(depth_at(before, cube_key(near@)), depth)],
    );
    lemma_cube_key_len(near@);
    lemma_relaxed_insert(before, cube_key(near@), depth, depth as int);
    assert forall|s: Seq<Rotation>, i: int|
        s.len() == 20 && 0 <= i < A::vocabulary().len() && lowered_at(
            start,
            after,
            s,
        ) implies #[trigger] within_one::<A>(after, s, i) || pending(opened, s, i) by {
        let lowered_now = depth_at(before, cube_key(near@)) matches Some(prior) && depth < prior;
        if cube_key(s) == cube_key(near@) && lowered_now {
            lemma_cube_key_injective(s, near@);
            let last = opened.len() - 1;
            assert(waits(opened[last], s, i));
        } else {
            if cube_key(s) == cube_key(near@) {
                lemma_relaxed_monotone(start, before, floor, cube_key(s));
            }
            assert(depth_at(after, cube_key(s)) == depth_at(before, cube_key(s)));
            assert(lowered_at(start, before, s));
            if within_one::<A>(before, s, i) {
                lemma_relaxed_monotone(
                    before,
                    after,
                    depth as int,
                    cube_key(neighbor::<A>(s, i)),
                );
            } else {
                assert(pending(frames, s, i));
                let k = choose|k: int| 0 <= k < frames.len() && waits(#[trigger] frames[k], s, i);
                assert(opened[k] == frames[k]);
                assert(waits(opened[k], s, i));
            }
        }
    }
}

/// The news stays gone round, but for what the frames have yet to deal
/// with, when a frame goes on to its next neighbor and the one that it
/// leaves behind is on record no more than one deeper than its cube.
pub proof fn lemma_settled_but_advance<A: Action>(
    start: Map<Seq<u8>, Seq<u8>>,
    after: Map<Seq<u8>, Seq<u8>>,
    frames: Seq<Frame>,
    advanced: Seq<Frame>,
    at: int,
)
    requires
        settled_but::<A>(start, after, frames),
        0 <= at < frames.len(),
        advanced.len() == frames.len(),
        forall|k: int| 0 <= k < frames.len() && k != at ==> #[trigger] advanced[k] == frames[k],
        advanced[at].cube@ == frames[at].cube@,
        advanced[at].next == frames[at].next + 1,
        frames[at].cube@.len() == 20,
        within_one::<A>(after, frames[at].cube@, frames[at].next as int),
    ensures
        settled_but::<A>(start, after, advanced),
{
    assert forall|s: Seq<Rotation>, i: int|
        s.len() == 20 && 0 <= i < A::vocabulary().len() && lowered_at(
            start,
            after,
            s,
        ) implies #[trigger] within_one::<A>(after, s, i) || pending(advanced, s, i) by {
        if !within_one::<A>(after, s, i) {
            let k = choose|k: int| 0 <= k < frames.len() && waits(#[trigger] frames[k], s, i);
            if k == at {
                assert(i != frames[at].next);
                assert(waits(advanced[at], s, i));
            } else {
                assert(advanced[k] == frames[k]);
                assert(waits(advanced[k], s, i));
            }
        }
    }
}

/// The news stays gone round, but for what the frames have yet to deal
/// with, when the last frame has dealt with all its neighbors and is
/// closed.
pub proof fn lemma_settled_but_closed<A: Action>(
    start: Map<Seq<u8>, Seq<u8>>,
    after: Map<Seq<u8>, Seq<u8>>,
    frames: Seq<Frame>,
)
    requires
        settled_but::<A>(start, after, frames),
        frames.len() > 0,
        frames.last().next >= A::vocabulary().len(),
    ensures
        settled_but::<A>(start, after, frames.drop_last()),
{
    let rest = frames.drop_last();
    assert forall|s: Seq<Rotation>, i: int|
        s.len() == 20 && 0 <= i < A::vocabulary().len() && lowered_at(
            start,
            after,
            s,
        ) implies #[trigger] within_one::<A>(after, s, i) || pending(rest, s, i) by {
        if !within_one::<A>(after, s, i) {
            let k = choose|k: int| 0 <= k < frames.len() && waits(#[trigger] frames[k], s, i);
            assert(k < frames.len() - 1);
            assert(rest[k] == frames[k]);
            assert(waits(rest[k], s, i));
        }
    }
}

/// The state that the first `k + 1` of some actions reach from the solved
/// cube.
pub open spec fn reached<A: Action>(actions: Seq<A>, k: int) -> Seq<Rotation> {
    folded(solved(), moves_of(actions.take(k + 1)))
}

/// The state at which the `k`-th of some actions is made: the solved
/// cube for the first, and then what the actions before have reached.
pub open spec fn set_out<A: Action>(actions: Seq<A>, k: int) -> Seq<Rotation> {
    folded(solved(), moves_of(actions.take(k)))
}

/// The count of a walk after `k` of its actions, by the records that
/// were there before the walk: the count starts at 0 and goes up by one
/// with every action, and where the state that an action leads to was on
/// record at less, it goes on from that depth.
pub open spec fn counted<A: Action>(
    records: Map<Seq<u8>, Seq<u8>>,
    actions: Seq<A>,
    k: int,
) -> int
    decreases k,
{
    if k <= 0 {
        0
    } else {
        let on = counted(records, actions, k - 1) + 1;
        match depth_at(records, cube_key(reached(actions, k - 1))) {
            Some(known) => if known < on {
                known as int
            } else {
                on
            },
            None => on,
        }
    }
}

/// The count of a walk goes up by no more than one with each action, and
/// after an action it is no more than the depth that was on record for
/// the state that the action leads to.
pub proof fn lemma_counted_goes_on<A: Action>(
    records: Map<Seq<u8>, Seq<u8>>,
    actions: Seq<A>,
    j: int,
    k: int,
)
    requires
        0 <= j <= k,
    ensures
        counted(records, actions, k) <= counted(records, actions, j) + (k - j),
        0 <= counted(records, actions, k) <= k,
        k > 0 ==> (depth_at(records, cube_key(reached(actions, k - 1))) matches Some(known)
            ==> counted(records, actions, k) <= known),
    decreases k,
{
    if k > 0 {
        if j < k {
            lemma_counted_goes_on(records, actions, j, k - 1);
        } else {
            lemma_counted_goes_on(records, actions, k - 1, k - 1);
        }
    }
}

/// Whether the state that the first `k + 1` actions reach is on record at
/// no more than the count of the walk there.
pub open spec fn within_count<A: Action>(
    before: Map<Seq<u8>, Seq<u8>>,
    after: Map<Seq<u8>, Seq<u8>>,
    actions: Seq<A>,
    k: int,
) -> bool {
    depth_at(after, cube_key(reached(actions, k))) matches Some(on) && on <= counted(
        before,
        actions,
        k + 1,
    )
}

/// Whether the way back from a known state was filed. Where the state
/// that the first `k + 1` actions reach was on record below the count of
/// the walk, the state at which the last of them was made is on record at
/// no more than one more than that depth.
pub open spec fn repaired_at<A: Action>(
    before: Map<Seq<u8>, Seq<u8>>,
    after: Map<Seq<u8>, Seq<u8>>,
    actions: Seq<A>,
    k: int,
) -> bool {
    (depth_at(before, cube_key(reached(actions, k))) matches Some(known) && known < counted(
        before,
        actions,
        k,
    ) + 1) ==> (depth_at(after, cube_key(set_out(actions, k))) matches Some(back) && back
        <= depth_at(before, cube_key(reached(actions, k)))->Some_0 + 1)
}

/// Whether a vocabulary has an action for the way back of a move.
pub open spec fn is_way_back<A: Action>(m: Move) -> bool {
    exists|i: int|
        0 <= i < A::vocabulary().len() && (#[trigger] A::vocabulary()[i]).as_move()
            == m.inverted()
}

/// Every turn has its way back among the turns.
pub proof fn lemma_turns_go_back(turn: Turn)
    ensures
        is_way_back::<Turn>(turn.as_move()),
{
    let i: int = match turn {
        Turn::L => 2,
        Turn::L2 => 1,
        Turn::L3 => 0,
        Turn::R => 5,
        Turn::R2 => 4,
        Turn::R3 => 3,
        Turn::U => 8,
        Turn::U2 => 7,
        Turn::U3 => 6,
        Turn::D => 11,
        Turn::D2 => 10,
        Turn::D3 => 9,
        Turn::F => 14,
        Turn::F2 => 13,
        Turn::F3 => 12,
        Turn::B => 17,
        Turn::B2 => 16,
        Turn::B3 => 15,
    };
    assert(<Turn as Action>::vocabulary()[i].as_move() == turn.as_move().inverted());
}

/// Every quarter turn has its way back among the quarter turns.
pub proof fn lemma_quarter_turns_go_back(turn: QuarterTurn)
    ensures
        is_way_back::<QuarterTurn>(turn.as_move()),
{
    let i: int = match turn {
        QuarterTurn::L => 1,
        QuarterTurn::L3 => 0,
        QuarterTurn::R => 3,
        QuarterTurn::R3 => 2,
        QuarterTurn::U => 5,
        QuarterTurn::U3 => 4,
        QuarterTurn::D => 7,
        QuarterTurn::D3 => 6,
        QuarterTurn::F => 9,
        QuarterTurn::F3 => 8,
        QuarterTurn::B => 11,
        QuarterTurn::B3 => 10,
    };
    assert(<QuarterTurn as Action>::vocabulary()[i].as_move() == turn.as_move().inverted());
}

/// Whether the walk can be gone backwards after the `k + 1`-th state:
/// where the vocabulary has an action for the way back, that state is on
/// record no more than one deeper than the state that follows it.
pub open spec fn steps_back<A: Action>(
    records: Map<Seq<u8>, Seq<u8>>,
    actions: Seq<A>,
    k: int,
) -> bool {
    is_way_back::<A>(actions[k + 1].as_move()) ==> (depth_at(
        records,
        cube_key(reached(actions, k)),
    ) matches Some(here) && depth_at(records, cube_key(reached(actions, k + 1))) matches Some(
        next,
    ) && here <= next + 1)
}

/// Whether every state next to a state is on record, at no more than one
/// more than `depth`.
pub open spec fn told<A: Action>(
    records: Map<Seq<u8>, Seq<u8>>,
    s: Seq<Rotation>,
    depth: u8,
) -> bool {
    forall|i: int|
        0 <= i < A::vocabulary().len() ==> (depth_at(
            records,
            cube_key(moved(s, (#[trigger] A::vocabulary()[i]).as_move())),
        ) matches Some(near) && near <= depth + 1)
}

/// What the news of a state at a depth, gone round, makes of the records:
/// every state next to it is on record at no more than one more, nothing
/// is filed below that, and the news of every depth that went down has
/// gone round as well.
pub open spec fn cascaded<A: Action>(
    before: Map<Seq<u8>, Seq<u8>>,
    s: Seq<Rotation>,
    depth: u8,
    after: Map<Seq<u8>, Seq<u8>>,
) -> bool {
    &&& relaxed(before, after, depth + 1)
    &&& told::<A>(after, s, depth)
    &&& settled::<A>(before, after)
}

/// What filing a depth for a state, with its news, makes of the records:
/// the lesser depth is on record for the state; where that was news of a
/// shorter way, it has gone round, and where not, nothing else is
/// changed.
pub open spec fn updated<A: Action>(
    before: Map<Seq<u8>, Seq<u8>>,
    s: Seq<Rotation>,
    depth: u8,
    after: Map<Seq<u8>, Seq<u8>>,
) -> bool {
    let prior = depth_at(before, cube_key(s));
    let put = before.insert(cube_key(s), seq![least_depth(prior, depth)]);
    if prior matches Some(known) && depth < known {
        cascaded::<A>(put, s, depth, after)
    } else {
        after == put
    }
}

/// Where a walk can be gone backwards from its `n`-th state to its
/// `k`-th, the `k`-th is on record at no more than the depth of the
/// `n`-th and the number of actions between them.
pub proof fn lemma_way_back<A: Action>(
    records: Map<Seq<u8>, Seq<u8>>,
    actions: Seq<A>,
    k: int,
    n: int,
)
    requires
        0 <= k <= n < actions.len(),
        depth_at(records, cube_key(reached(actions, n))) is Some,
        forall|i: int| k <= i < n ==> #[trigger] steps_back(records, actions, i),
        forall|i: int| k < i <= n ==> is_way_back::<A>((#[trigger] actions[i]).as_move()),
    ensures
        depth_at(records, cube_key(reached(actions, k))) matches Some(here) && here <= depth_at(
            records,
            cube_key(reached(actions, n)),
        )->Some_0 + (n - k),
    decreases n - k,
{
    if k < n {
        lemma_way_back(records, actions, k + 1, n);
        assert(steps_back(records, actions, k));
        assert(is_way_back::<A>(actions[k + 1].as_move()));
    }
}

/// What a walk does at a state once its count was filed there.
pub enum Repair {
    /// Nothing more: the state was not on record, or at the count.
    Rest,
    /// The state was on record deeper: the states next to it are filed
    /// anew.
    Relax,
    /// The state was on record at this lesser depth: the count goes on
    /// from it, and the state before is filed anew at one more.
    Restart(u8),
}

/// What a walk does at a state for which `prior` was on record when
/// `count` was filed.
pub open spec fn repair_after(count: u8, prior: Option<u8>) -> Repair {
    match prior {
        Some(known) => if count < known {
            Repair::Relax
        } else if known < count {
            Repair::Restart(known)
        } else {
            Repair::Rest
        },
        None => Repair::Rest,
    }
}

/// What a walk does at a state for which `prior` was on record when
/// `count` was filed.
pub fn repair_of(count: u8, prior: Option<u8>) -> (repair: Repair)
    ensures
        repair == repair_after(count, prior),
{
    match prior {
        Some(known) => if count < known {
            Repair::Relax
        } else if known < count {
            Repair::Restart(known)
        } else {
            Repair::Rest
        },
        None => Repair::Rest,
    }
}

/// What one action of a walk makes of the records and of the count. The
/// state that the action leads to is filed at one more than the count.
/// Then, as `repair_after` says of the depth that was on record for it:
/// nothing more is done; or the news goes round from it; or the count
/// goes on from the depth on record, and the state at which the action
/// was made is filed at one more than that, with its news.
pub open spec fn walk_step<A: Action>(
    before: Map<Seq<u8>, Seq<u8>>,
    count: u8,
    from: Seq<Rotation>,
    m: Move,
    after: Map<Seq<u8>, Seq<u8>>,
    next: u8,
) -> bool {
    let on = (count + 1) as u8;
    let prior = depth_at(before, cube_key(moved(from, m)));
    let put = before.insert(cube_key(moved(from, m)), seq![least_depth(prior, on)]);
    match repair_after(on, prior) {
        Repair::Rest => after == put && next == on,
        Repair::Relax => cascaded::<A>(put, moved(from, m), on, after) && next == on,
        Repair::Restart(known) => updated::<A>(put, from, (known + 1) as u8, after) && next
            == known,
    }
}

/// What the first `k` actions of a walk from the solved cube make of the
/// records and of the count, one `walk_step` after the other.
pub open spec fn walked<A: Action>(
    before: Map<Seq<u8>, Seq<u8>>,
    actions: Seq<A>,
    k: int,
    after: Map<Seq<u8>, Seq<u8>>,
    count: u8,
) -> bool
    decreases k,
{
    if k <= 0 {
        after == before && count == 0
    } else {
        exists|mid: Map<Seq<u8>, Seq<u8>>, came: u8|
            walked(before, actions, k - 1, mid, came) && #[trigger] walk_step::<A>(
                mid,
                came,
                set_out(actions, k - 1),
                actions[k - 1].as_move(),
                after,
                count,
            )
    }
}

/// One more step makes a longer walk.
pub proof fn lemma_walked_step<A: Action>(
    before: Map<Seq<u8>, Seq<u8>>,
    actions: Seq<A>,
    k: int,
    mid: Map<Seq<u8>, Seq<u8>>,
    came: u8,
    after: Map<Seq<u8>, Seq<u8>>,
    count: u8,
)
    requires
        0 <= k,
        walked(before, actions, k, mid, came),
        walk_step::<A>(mid, came, set_out(actions, k), actions[k].as_move(), after, count),
    ensures
        walked(before, actions, k + 1, after, count),
{
    assert(walk_step::<A>(
        mid,
        came,
        set_out(actions, k + 1 - 1),
        actions[k + 1 - 1].as_move(),
        after,
        count,
    ));
}

/// Whether the first `k` states of a walk are new to the records, and no
/// two of them the same.
pub open spec fn is_new_way<A: Action>(
    records: Map<Seq<u8>, Seq<u8>>,
    actions: Seq<A>,
    k: int,
) -> bool {
    &&& forall|i: int|
        0 <= i < k ==> depth_at(records, cube_key(#[trigger] reached(actions, i))) is None
    &&& forall|i: int, j: int|
        0 <= i < j < k ==> #[trigger] reached(actions, i) != #[trigger] reached(actions, j)
}

/// The records with the first `k` states of a walk filed, each at the
/// number of actions that lead to it.
pub open spec fn way_filed<A: Action>(
    records: Map<Seq<u8>, Seq<u8>>,
    actions: Seq<A>,
    k: int,
) -> Map<Seq<u8>, Seq<u8>>
    decreases k,
{
    if k <= 0 {
        records
    } else {
        way_filed(records, actions, k - 1).insert(
            cube_key(reached(actions, k - 1)),
            seq![k as u8],
        )
    }
}

/// A walk through states that are new to the book, no two of them the
/// same, files each state at the number of actions that lead to it, and
/// changes no other record.
pub proof fn lemma_walk_of_new_states<A: Action>(
    before: Map<Seq<u8>, Seq<u8>>,
    actions: Seq<A>,
    k: int,
    after: Map<Seq<u8>, Seq<u8>>,
    count: u8,
)
    requires
        0 <= k <= actions.len(),
        k <= 255,
        walked(before, actions, k, after, count),
        is_new_way(before, actions, k),
    ensures
        count == k,
        forall|i: int|
            0 <= i < k ==> depth_at(after, cube_key(#[trigger] reached(actions, i))) == Some(
                (i + 1) as u8,
            ),
        after == way_filed(before, actions, k),
        forall|key: Seq<u8>|
            (forall|i: int| 0 <= i < k ==> key != cube_key(#[trigger] reached(actions, i)))
                ==> #[trigger] record_at(after, key) == record_at(before, key),
    decreases k,
{
    if k > 0 {
        let (mid, came) = choose|mid: Map<Seq<u8>, Seq<u8>>, came: u8|
            walked(before, actions, k - 1, mid, came) && #[trigger] walk_step::<A>(
                mid,
                came,
                set_out(actions, k - 1),
                actions[k - 1].as_move(),
                after,
                count,
            );
        lemma_walk_of_new_states(before, actions, k - 1, mid, came);
        lemma_reached_next(actions, k - 1);
        let last = reached(actions, k - 1);
        assert forall|i: int| 0 <= i < k - 1 implies cube_key(last) != cube_key(
            #[trigger] reached(actions, i),
        ) by {
            lemma_reached_next(actions, i);
            if cube_key(last) == cube_key(reached(actions, i)) {
                lemma_cube_key_injective(last, reached(actions, i));
            }
        }
        assert(record_at(mid, cube_key(last)) == record_at(before, cube_key(last)));
        assert(depth_at(mid, cube_key(last)) is None);
        assert(after == mid.insert(cube_key(last), seq![k as u8]));
        assert forall|i: int| 0 <= i < k implies depth_at(
            after,
            cube_key(#[trigger] reached(actions, i)),
        ) == Some((i + 1) as u8) by {
            if i < k - 1 {
                assert(cube_key(last) != cube_key(reached(actions, i)));
            }
        }
        assert forall|key: Seq<u8>|
            (forall|i: int|
                0 <= i < k ==> key != cube_key(#[trigger] reached(actions, i))) implies #[trigger] record_at(
            after,
            key,
        ) == record_at(before, key) by {
            assert(key != cube_key(reached(actions, k - 1)));
            assert(forall|i: int|
                0 <= i < k - 1 ==> key != cube_key(#[trigger] reached(actions, i)));
            assert(record_at(mid, key) == record_at(before, key));
        }
    }
}

/// A depth that is below the floor of what is filed stays as it is.
pub proof fn lemma_relaxed_keeps(
    before: Map<Seq<u8>, Seq<u8>>,
    after: Map<Seq<u8>, Seq<u8>>,
    floor: int,
    key: Seq<u8>,
)
    requires
        relaxed(before, after, floor),
        depth_at(before, key) matches Some(depth) && depth < floor,
    ensures
        depth_at(after, key) == depth_at(before, key),
{
    assert(record_relaxed(before, after, floor, key));
}

/// One more action leads from the state that the actions before have
/// reached to the next.
pub proof fn lemma_reached_next<A: Action>(actions: Seq<A>, k: int)
    requires
        0 <= k < actions.len(),
    ensures
        reached(actions, k) == moved(set_out(actions, k), actions[k].as_move()),
        set_out(actions, k).len() == 20,
        reached(actions, k).len() == 20,
        set_out(actions, k + 1) == reached(actions, k),
{
    let done = moves_of(actions.take(k));
    assert(done.push(actions[k].as_move()) =~= moves_of(actions.take(k + 1)));
    lemma_folded_push(solved(), done, actions[k].as_move());
    lemma_folded_len(solved(), done);
    lemma_moved_len(set_out(actions, k), actions[k].as_move());
}

/// A book of depths for the vocabulary `A`.
pub struct Book<A> {
    // the store itself is kept for the size of its files
    db: sled::Db,
    inner: sled::Tree,
    _phantom: PhantomData<A>,
}

impl<A: Action + Packable> View for Book<A> {
    type V = Map<Seq<u8>, Seq<u8>>;

    /// The records of the book.
    closed spec fn view(&self) -> Map<Seq<u8>, Seq<u8>> {
        tree_contents(self.inner)
    }
}

impl<A: Action + Packable> Book<A> {
    /// The depth on record for a state.
    pub open spec fn depth_of(&self, s: Seq<Rotation>) -> Option<u8> {
        depth_at(self@, cube_key(s))
    }

    /// Whether the store of the book was found where it was opened,
    /// rather than made there.
    pub closed spec fn was_found(&self) -> bool {
        store_found(self.db)
    }

    /// Whether the book holds what every book holds: the label of its
    /// vocabulary, the mark of packed keys, and a depth for the solved
    /// cube.
    pub open spec fn is_well_formed(&self) -> bool {
        schema_verdict(
            A::label(),
            true,
            record_at(self@, action_key()),
            record_at(self@, packing_key()),
            self.depth_of(solved()),
        ) is Ok
    }

    /// The key under which a cube is filed.
    pub fn key_of(cube: &Cube<Position>) -> (key: Vec<u8>)
        ensures
            key@ == cube_key(cube@),
            is_packing(codes(cube@), 5, key@),
            key@.len() == 13,
            cube@.len() == 20,
    {
        let key = cube.to_packed();
        assert(codes(cube@).len() == cube@.len());
        key
    }

    /// Opens the book in the store at a path. The store must be there,
    /// and must be a book for this vocabulary. Where the path holds no
    /// store, the empty one that opening it has made is removed again.
    pub fn open(file_path: &str) -> (r: Result<Book<A>, ErrorKind>)
        ensures
            r matches Ok(book) ==> book.was_found() && book.is_well_formed(),
            r matches Err(e) ==> e == ErrorKind::NotFound || e == ErrorKind::Io || e
                == ErrorKind::Corrupt || e == ErrorKind::SchemaMismatch,
    {
        match store_open(file_path) {
            Ok(db) => {
                let found = store_was_recovered(&db);
                let r = Book::open_with(db, found);
                if !found {
                    // the store was made by opening it: take it away again
                    store_discard(file_path);
                }
                r
            },
            Err(_) => Err(ErrorKind::Io),
        }
    }

    /// Opens the book in a store that is open, as `open_with` does, once
    /// the store has said whether it was there before: a store that was
    /// made when it was opened is `NotFound`, and no other is.
    pub fn open_db(db: sled::Db) -> (r: Result<Book<A>, ErrorKind>)
        ensures
            !store_found(db) ==> (r matches Err(e) && e == ErrorKind::NotFound),
            r matches Ok(book) ==> store_found(db) && book.was_found()
                && book.is_well_formed(),
            r matches Err(e) ==> (e == ErrorKind::NotFound && !store_found(db)) || (store_found(
                db,
            ) && (e == ErrorKind::Io || e == ErrorKind::Corrupt || e
                == ErrorKind::SchemaMismatch)),
    {
        let recovered = store_was_recovered(&db);
        Book::open_with(db, recovered)
    }

    /// Opens the book in a store that is open, given whether the store
    /// was there before. A store that was not is `NotFound`, whatever it
    /// holds. Of a store that was, the tree of the book is opened and
    /// judged as `open_tree` says; a tree that cannot be opened is `Io`.
    pub fn open_with(db: sled::Db, recovered: bool) -> (r: Result<Book<A>, ErrorKind>)
        ensures
            !recovered ==> (r matches Err(e) && e == ErrorKind::NotFound),
            r matches Ok(book) ==> recovered && book.is_well_formed() && book.was_found()
                == store_found(db),
            r matches Err(e) ==> (e == ErrorKind::NotFound && !recovered) || (recovered && (e
                == ErrorKind::Io || e == ErrorKind::Corrupt || e == ErrorKind::SchemaMismatch)),
    {
        if !recovered {
            return Err(ErrorKind::NotFound);
        }
        let name = tree_name();
        match store_open_tree(&db, name.as_slice()) {
            Ok(inner) => Book::open_tree(db, inner, recovered),
            Err(_) => Err(ErrorKind::Io),
        }
    }

    /// The verdict on the records of a tree that is to be opened as a
    /// book for this vocabulary, given whether its store was there before.
    pub open spec fn verdict_on(records: Map<Seq<u8>, Seq<u8>>, recovered: bool) -> Result<
        (),
        ErrorKind,
    > {
        schema_verdict(
            A::label(),
            recovered,
            record_at(records, action_key()),
            record_at(records, packing_key()),
            depth_at(records, cube_key(solved())),
        )
    }

    /// Opens the book in a tree of a store, given whether the store was
    /// there before. A store that was not is `NotFound`, and nothing is
    /// read. Else the two records of the schema and the depth of the
    /// solved cube are read, and the book is opened where the verdict on
    /// them is good. Where it is not, the verdict is the error; a record
    /// that cannot be read is `Io`. Nothing is written.
    pub fn open_tree(db: sled::Db, inner: sled::Tree, recovered: bool) -> (r: Result<
        Book<A>,
        ErrorKind,
    >)
        ensures
            !recovered ==> (r matches Err(e) && e == ErrorKind::NotFound),
            match r {
                Ok(book) => {
                    &&& Book::<A>::verdict_on(tree_contents(inner), recovered) is Ok
                    &&& book@ == tree_contents(inner)
                    &&& book.was_found() == store_found(db)
                    &&& recovered
                    &&& book.is_well_formed()
                },
                Err(e) => e == ErrorKind::Io || Err::<(), ErrorKind>(e) == Book::<A>::verdict_on(
                    tree_contents(inner),
                    recovered,
                ),
            },
    {
        if !recovered {
            return Err(ErrorKind::NotFound);
        }
        let action = match tree_get(&inner, action_entry().as_slice()) {
            Ok(found) => found,
            Err(_) => {
                return Err(ErrorKind::Io);
            },
        };
        let packed = match tree_get(&inner, packing_entry().as_slice()) {
            Ok(found) => found,
            Err(_) => {
                return Err(ErrorKind::Io);
            },
        };
        let book = Book { db, inner, _phantom: PhantomData };
        let solved_depth = match book.get_depth(&Cube::default()) {
            Ok(depth) => depth,
            Err(_) => {
                return Err(ErrorKind::Io);
            },
        };
        let label = A::name();
        match check_schema(label.as_slice(), recovered, &action, &packed, solved_depth) {
            Ok(()) => Ok(book),
            Err(e) => Err(e),
        }
    }

    /// Makes a book in the store at a path, where no store is yet.
    pub fn create(file_path: &str) -> (r: Result<Book<A>, ErrorKind>)
        ensures
            r matches Ok(book) ==> !book.was_found() && book@ == new_records(A::label())
                && book.is_well_formed() && book.depth_of(solved()) == Some(0u8) && sound::<A>(
                book@,
            ),
            r matches Err(e) ==> e == ErrorKind::AlreadyExists || e == ErrorKind::Io,
    {
        match store_open(file_path) {
            Ok(db) => Book::create_db(db),
            Err(_) => Err(ErrorKind::Io),
        }
    }

    /// Makes a book in a store that is open, as `create_with` does, once
    /// the store has said whether it was there before: a store that was
    /// found when it was opened is `AlreadyExists`.
    pub fn create_db(db: sled::Db) -> (r: Result<Book<A>, ErrorKind>)
        ensures
            store_found(db) ==> (r matches Err(e) && e == ErrorKind::AlreadyExists),
            r matches Ok(book) ==> !store_found(db) && !book.was_found() && book@
                == new_records(A::label())
                && book.is_well_formed() && book.depth_of(solved()) == Some(0u8) && sound::<A>(
                book@,
            ),
            r matches Err(e) ==> e == ErrorKind::AlreadyExists || (e == ErrorKind::Io
                && !store_found(db)),
    {
        let recovered = store_was_recovered(&db);
        Book::create_with(db, recovered)
    }

    /// Makes a book in a store that is open, given whether the store was
    /// there before. A store that was is left alone: `AlreadyExists`, and
    /// so is one whose tree is not found empty. In an empty store the two
    /// records of the schema are written and the solved cube is filed at
    /// depth 0, and the book holds nothing else; a record that cannot be
    /// written is `Io`.
    pub fn create_with(db: sled::Db, recovered: bool) -> (r: Result<Book<A>, ErrorKind>)
        ensures
            recovered ==> (r matches Err(e) && e == ErrorKind::AlreadyExists),
            r matches Ok(book) ==> !recovered && book@ == new_records(A::label())
                && book.is_well_formed() && book.depth_of(solved()) == Some(0u8) && sound::<A>(
                book@,
            ) && book.was_found() == store_found(db),
            r matches Err(e) ==> e == ErrorKind::AlreadyExists || (e == ErrorKind::Io
                && !recovered),
    {
        if recovered {
            return Err(ErrorKind::AlreadyExists);
        }
        let name = tree_name();
        let mut inner = match store_open_tree(&db, name.as_slice()) {
            Ok(tree) => tree,
            Err(_) => {
                return Err(ErrorKind::Io);
            },
        };
        match tree_first(&inner) {
            Ok(None) => {},
            Ok(Some(_)) => {
                return Err(ErrorKind::AlreadyExists);
            },
            Err(_) => {
                return Err(ErrorKind::Io);
            },
        }
        let label = A::name();
        let action = action_entry();
        match tree_insert(&mut inner, action.as_slice(), label.as_slice()) {
            Ok(_) => {},
            Err(_) => {
                return Err(ErrorKind::Io);
            },
        }
        let packing = packing_entry();
        let mark = packed_entry();
        match tree_insert(&mut inner, packing.as_slice(), mark.as_slice()) {
            Ok(_) => {},
            Err(_) => {
                return Err(ErrorKind::Io);
            },
        }
        let mut book = Book { db, inner, _phantom: PhantomData };
        let ghost labelled = book@;
        assert(record_at(labelled, action_key()) == Some(A::label()));
        assert(record_at(labelled, packing_key()) == Some(packed_mark()));
        let home: Cube<Position> = Cube::default();
        match book.insert_cube(&home, 0) {
            Ok(_) => {
                proof {
                    assert(record_at(book@, action_key()) == record_at(labelled, action_key()));
                    assert(record_at(book@, packing_key()) == record_at(labelled, packing_key()));
                    assert(book@ =~= new_records(A::label()));
                    lemma_new_records_sound::<A>();
                }
                Ok(book)
            },
            Err(e) => Err(e),
        }
    }

    /// Opens the book in the store at a path where a store is, and makes
    /// one where none is: a book in a store that was not found is new.
    /// It never says `NotFound`.
    pub fn create_or_open(file_path: &str) -> (r: Result<Book<A>, ErrorKind>)
        ensures
            r matches Ok(book) ==> book.is_well_formed() && (!book.was_found() ==> book@
                == new_records(A::label()) && book.depth_of(solved()) == Some(0u8) && sound::<A>(
                book@,
            )),
            r matches Err(e) ==> e == ErrorKind::Io || e == ErrorKind::Corrupt || e
                == ErrorKind::SchemaMismatch || e == ErrorKind::AlreadyExists,
    {
        match store_open(file_path) {
            Ok(db) => if store_was_recovered(&db) {
                Book::open_with(db, true)
            } else {
                Book::create_with(db, false)
            },
            Err(_) => Err(ErrorKind::Io),
        }
    }

    /// Whether the book has a record for a cube.
    pub fn contains(&self, cube: &Cube<Position>) -> (r: Result<bool, ErrorKind>)
        ensures
            match r {
                Ok(held) => held == self@.dom().contains(cube_key(cube@)),
                Err(e) => e == ErrorKind::Io,
            },
    {
        let key = Book::<A>::key_of(cube);
        match tree_get(&self.inner, key.as_slice()) {
            Ok(found) => Ok(found.is_some()),
            Err(_) => Err(ErrorKind::Io),
        }
    }

    /// The depth on record for a cube.
    pub fn get_depth(&self, cube: &Cube<Position>) -> (r: Result<Option<u8>, ErrorKind>)
        ensures
            match r {
                Ok(depth) => depth == self.depth_of(cube@),
                Err(e) => e == ErrorKind::Io,
            },
    {
        let key = Book::<A>::key_of(cube);
        match tree_get(&self.inner, key.as_slice()) {
            Ok(found) => Ok(read_depth(&found)),
            Err(_) => Err(ErrorKind::Io),
        }
    }

    /// Insert a cube and a depth into the book. If the book has no record
    /// of the cube, the cube and depth are inserted. If the book has an
    /// existing record, it is only replaced if the passed depth is less
    /// than the existing depth. The existing depth is returned if there is
    /// one.
    pub fn insert_cube(&mut self, cube: &Cube<Position>, depth: u8) -> (r: Result<
        Option<u8>,
        ErrorKind,
    >)
        ensures
            final(self).was_found() == old(self).was_found(),
            match r {
                Ok(prior) => {
                    &&& prior == old(self).depth_of(cube@)
                    &&& final(self)@ == old(self)@.insert(
                        cube_key(cube@),
                        seq![least_depth(prior, depth)],
                    )
                    &&& final(self).depth_of(cube@) == Some(least_depth(prior, depth))
                    &&& relaxed(old(self)@, final(self)@, depth as int)
                    &&& cube_key(cube@).len() == 13
                    &&& cube@.len() == 20
                    &&& sound::<A>(old(self)@) && reachable_in::<A>(cube@, depth as int)
                        ==> sound::<A>(final(self)@)
                },
                Err(e) => {
                    &&& e == ErrorKind::Io
                    &&& final(self)@ == old(self)@ || final(self)@ == old(self)@.insert(
                        cube_key(cube@),
                        seq![least_depth(old(self).depth_of(cube@), depth)],
                    )
                    &&& relaxed(old(self)@, final(self)@, depth as int)
                    &&& sound::<A>(old(self)@) && reachable_in::<A>(cube@, depth as int)
                        ==> sound::<A>(final(self)@)
                },
            },
    {
        let key = Book::<A>::key_of(cube);
        proof {
            lemma_relaxed_insert(self@, key@, depth, depth as int);
            assert(cube@.len() == 20) by {
                assert(codes(cube@).len() == cube@.len());
            }
            if sound::<A>(self@) && reachable_in::<A>(cube@, depth as int) {
                lemma_sound_insert::<A>(self@, cube@, depth);
            }
        }
        proof {
            lemma_relaxed_same(self@, depth as int);
        }
        match tree_fetch_least(&mut self.inner, key.as_slice(), depth) {
            Ok(found) => Ok(read_depth(&found)),
            Err(_) => Err(ErrorKind::Io),
        }
    }

    /// Files a depth for the cube of a word, as `insert_cube` does.
    pub fn insert(&mut self, word: &Word<A>, depth: u8) -> (r: Result<Option<u8>, ErrorKind>)
        ensures
            final(self).was_found() == old(self).was_found(),
            match r {
                Ok(prior) => {
                    &&& prior == old(self).depth_of(word.state())
                    &&& final(self)@ == old(self)@.insert(
                        cube_key(word.state()),
                        seq![least_depth(prior, depth)],
                    )
                    &&& relaxed(old(self)@, final(self)@, depth as int)
                },
                Err(e) => {
                    &&& e == ErrorKind::Io
                    &&& final(self)@ == old(self)@ || final(self)@ == old(self)@.insert(
                        cube_key(word.state()),
                        seq![least_depth(old(self).depth_of(word.state()), depth)],
                    )
                    &&& relaxed(old(self)@, final(self)@, depth as int)
                },
            },
    {
        self.insert_cube(word.cube(), depth)
    }

    /// Files `depth + 1` for every cube that is one action away from
    /// `cube`, and goes on from each for which that was news, and so on:
    /// the cubes whose neighbors are yet to be filed wait on a stack, the
    /// deepest on top. `cube` must be on record at `depth`.
    fn relax_neighbors(&mut self, cube: &Cube<Position>, depth: u8) -> (r: Result<(), ErrorKind>)
        requires
            depth < 255,
            old(self).depth_of(cube@) == Some(depth),
        ensures
            final(self).was_found() == old(self).was_found(),
            match r {
                Ok(()) => {
                    &&& relaxed(old(self)@, final(self)@, depth + 1)
                    &&& forall|i: int|
                        0 <= i < A::vocabulary().len() ==> (final(self).depth_of(
                            moved(cube@, (#[trigger] A::vocabulary()[i]).as_move()),
                        ) matches Some(near) && near <= depth + 1)
                    &&& cascaded::<A>(old(self)@, cube@, depth, final(self)@)
                    &&& settled::<A>(old(self)@, final(self)@)
                    &&& sound::<A>(old(self)@) && reachable_in::<A>(cube@, depth as int)
                        ==> sound::<A>(final(self)@)
                },
                Err(e) => {
                    &&& e == ErrorKind::Io
                    &&& relaxed(old(self)@, final(self)@, depth + 1)
                    &&& sound::<A>(old(self)@) && reachable_in::<A>(cube@, depth as int)
                        ==> sound::<A>(final(self)@)
                },
            },
    {
        let actions = A::all();
        let n = actions.len();
        let mut stack: Vec<Frame> = Vec::new();
        stack.push(Frame { cube: cube.clone(), depth, next: 0 });
        proof {
            crate::cube::lemma_cube_len(*cube);
            lemma_relaxed_same(self@, depth + 1);
        }
        while stack.len() > 0
            invariant
                self.was_found() == old(self).was_found(),
                n == actions@.len(),
                actions@ == A::vocabulary(),
                depth < 255,
                cube@.len() == 20,
                relaxed(old(self)@, self@, depth + 1),
                frames_ok::<A>(self@, stack@, depth as int),
                stack@.len() > 0 ==> stack@[0].cube@ == cube@,
                settled_but::<A>(old(self)@, self@, stack@),
                stack@.len() == 0 ==> forall|j: int|
                    0 <= j < n ==> #[trigger] within_one::<A>(self@, cube@, j),
                sound::<A>(old(self)@) && reachable_in::<A>(cube@, depth as int) ==> sound::<A>(
                    self@,
                ) && forall|k: int|
                    0 <= k < stack@.len() ==> reachable_in::<A>(
                        (#[trigger] stack@[k]).cube@,
                        stack@[k].depth as int,
                    ),
            decreases load(stack@, n as nat),
        {
            let ghost frames = stack@;
            let ghost before = self@;
            let ghost top = frames.len() - 1;
            let mut frame = match stack.pop() {
                Some(frame) => frame,
                None => {
                    return Ok(());
                },
            };
            let ghost rest = stack@;
            proof {
                assert(rest =~= frames.drop_last());
                assert(frame == frames[top]);
                assert(frame_ok::<A>(before, frames[top]));
                lemma_weight_step(frame.next as nat, frame.depth as nat, n as nat);
                assert forall|k: int| 0 <= k < rest.len() implies frame_ok::<A>(
                    before,
                    #[trigger] rest[k],
                ) && rest[k].depth == depth + k by {
                    assert(rest[k] == frames[k]);
                }
            }
            if frame.next >= n {
                proof {
                    lemma_settled_but_closed::<A>(old(self)@, before, frames);
                    if rest.len() == 0 {
                        assert(frames[0].cube@ == cube@);
                    }
                    assert forall|k: int| 0 <= k < rest.len() implies (reachable_in::<A>(
                        frames[k].cube@,
                        frames[k].depth as int,
                    ) ==> reachable_in::<A>((#[trigger] rest[k]).cube@, rest[k].depth as int)) by {
                        assert(rest[k] == frames[k]);
                    }
                }
            } else {
                let i = frame.next;
                let d = frame.depth;
                let near = frame.cube.clone().make_move(actions[i].to_move());
                let ghost waiting = frame;
                frame.next = i + 1;
                let ghost advanced = frame;
                stack.push(frame);
                proof {
                    assert(near@ == neighbor::<A>(waiting.cube@, i as int));
                    lemma_moved_len(waiting.cube@, A::vocabulary()[i as int].as_move());
                    if reachable_in::<A>(waiting.cube@, d as int) {
                        lemma_reachable_push::<A>(waiting.cube@, d as int, A::vocabulary()[i as int]);
                    }
                }
                let prior = match self.insert_cube(&near, d + 1) {
                    Ok(prior) => prior,
                    Err(e) => {
                        proof {
                            lemma_relaxed_transitive(
                                old(self)@,
                                before,
                                self@,
                                depth + 1,
                                d + 1,
                                depth + 1,
                            );
                        }
                        return Err(e);
                    },
                };
                let news = match prior {
                    Some(old_depth) => d + 1 < old_depth,
                    None => false,
                };
                let ghost opened = if news {
                    frames.push(Frame { cube: near, depth: (d + 1) as u8, next: 0 })
                } else {
                    frames
                };
                if news {
                    stack.push(Frame { cube: near, depth: d + 1, next: 0 });
                }
                proof {
                    let after = self@;
                    lemma_relaxed_transitive(old(self)@, before, after, depth + 1, d + 1, depth + 1);
                    // what waited is as it was, and the neighbor is on record
                    lemma_frame_kept::<A>(before, waiting, near@, (d + 1) as u8);
                    assert(within_one::<A>(after, waiting.cube@, i as int));
                    assert(frame_ok::<A>(after, advanced)) by {
                        assert forall|j: int| 0 <= j < advanced.next implies #[trigger] within_one::<
                            A,
                        >(after, advanced.cube@, j) by {
                            if j < i {
                                assert(within_one::<A>(after, waiting.cube@, j));
                            }
                        }
                    }
                    assert forall|k: int| 0 <= k < stack@.len() implies frame_ok::<A>(
                        after,
                        #[trigger] stack@[k],
                    ) && stack@[k].depth == depth + k by {
                        if k < top {
                            assert(stack@[k] == frames[k]);
                            lemma_frame_kept::<A>(before, frames[k], near@, (d + 1) as u8);
                        } else if k == top {
                            assert(stack@[k] == advanced);
                        }
                    }
                    // the news has gone round but for the frames
                    lemma_settled_but_kept::<A>(
                        old(self)@,
                        before,
                        frames,
                        opened,
                        near,
                        (d + 1) as u8,
                        depth + 1,
                    );
                    assert(frame_ok::<A>(after, waiting));
                    lemma_settled_but_advance::<A>(old(self)@, after, opened, stack@, top);
                    // so much less is left to do
                    assert(load(stack@, n as nat) < load(frames, n as nat)) by {
                        assert(frames.drop_last() =~= rest);
                        if news {
                            let reopened = rest.push(advanced);
                            assert(stack@.drop_last() =~= reopened);
                            assert(reopened.drop_last() =~= rest);
                            assert(load(reopened, n as nat) == load(rest, n as nat) + frame_load(
                                advanced,
                                n as nat,
                            ));
                        } else {
                            assert(stack@.drop_last() =~= rest);
                        }
                    }
                    if sound::<A>(old(self)@) && reachable_in::<A>(cube@, depth as int) {
                        assert forall|k: int| 0 <= k < stack@.len() implies reachable_in::<A>(
                            (#[trigger] stack@[k]).cube@,
                            stack@[k].depth as int,
                        ) by {
                            if k < top {
                                assert(stack@[k] == frames[k]);
                            }
                        }
                    }
                }
            }
        }
        proof {
            assert forall|s: Seq<Rotation>, i: int|
                s.len() == 20 && 0 <= i < A::vocabulary().len() && lowered_at(
                    old(self)@,
                    self@,
                    s,
                ) implies #[trigger] within_one::<A>(self@, s, i) by {
                assert(!pending(stack@, s, i));
            }
            assert forall|i: int| 0 <= i < A::vocabulary().len() implies (self.depth_of(
                moved(cube@, (#[trigger] A::vocabulary()[i]).as_move()),
            ) matches Some(near) && near <= depth + 1) by {
                assert(within_one::<A>(self@, cube@, i));
                lemma_relaxed_monotone(old(self)@, self@, depth + 1, cube_key(cube@));
            }
        }
        Ok(())
    }

    /// Insert a cube into the book and if the previous recorded depth was
    /// overwritten, file one more for every cube next to it, and so on
    /// from each for which that was news. The first failure ends the work
    /// and is handed back.
    pub fn update_cube(&mut self, cube: &Cube<Position>, depth: u8) -> (r: Result<(), ErrorKind>)
        ensures
            final(self).was_found() == old(self).was_found(),
            match r {
                Ok(()) => {
                    &&& relaxed(old(self)@, final(self)@, depth as int)
                    &&& final(self).depth_of(cube@) == Some(
                        least_depth(old(self).depth_of(cube@), depth),
                    )
                    &&& (old(self).depth_of(cube@) matches Some(prior) && depth < prior)
                        ==> forall|i: int|
                        0 <= i < A::vocabulary().len() ==> (final(self).depth_of(
                            moved(cube@, (#[trigger] A::vocabulary()[i]).as_move()),
                        ) matches Some(near) && near <= depth + 1)
                    &&& !(old(self).depth_of(cube@) matches Some(prior) && depth < prior)
                        ==> final(self)@ == old(self)@.insert(
                        cube_key(cube@),
                        seq![least_depth(old(self).depth_of(cube@), depth)],
                    )
                    &&& updated::<A>(old(self)@, cube@, depth, final(self)@)
                    &&& settled::<A>(old(self)@, final(self)@)
                    &&& sound::<A>(old(self)@) && reachable_in::<A>(cube@, depth as int)
                        ==> sound::<A>(final(self)@)
                },
                Err(e) => {
                    &&& e == ErrorKind::Io
                    &&& relaxed(old(self)@, final(self)@, depth as int)
                    &&& sound::<A>(old(self)@) && reachable_in::<A>(cube@, depth as int)
                        ==> sound::<A>(final(self)@)
                },
            },
    {
        let prior = match self.insert_cube(cube, depth) {
            Ok(prior) => prior,
            Err(e) => {
                return Err(e);
            },
        };
        let ghost filed = self@;
        match prior {
            Some(old_depth) => {
                if depth < old_depth {
                    match self.relax_neighbors(cube, depth) {
                        Ok(()) => {},
                        Err(e) => {
                            proof {
                                lemma_relaxed_transitive(
                                    old(self)@,
                                    filed,
                                    self@,
                                    depth as int,
                                    depth + 1,
                                    depth as int,
                                );
                            }
                            return Err(e);
                        },
                    }
                    proof {
                        lemma_relaxed_transitive(
                            old(self)@,
                            filed,
                            self@,
                            depth as int,
                            depth + 1,
                            depth as int,
                        );
                        lemma_relaxed_monotone(filed, self@, depth + 1, cube_key(cube@));
                        lemma_settled_by_relaxing::<A>(old(self)@, filed, self@, cube@, depth);
                    }
                } else {
                    proof {
                        lemma_settled_by_filing::<A>(old(self)@, cube@, depth);
                    }
                }
            },
            None => {
                proof {
                    lemma_settled_by_filing::<A>(old(self)@, cube@, depth);
                }
            },
        }
        Ok(())
    }

    /// Run update_cube for all cubes along the path of the given word.
    /// Each cube on the path is filed at the number of actions that lead
    /// to it, or at less where the book knows a shorter way: the count
    /// then goes on from the depth on record, and the cube before is
    /// filed anew at one more than that. A word without actions changes
    /// nothing, and does not fail.
    pub fn update_word(&mut self, word: &Word<A>) -> (r: Result<(), ErrorKind>)
        requires
            spelled_out::<A>(word.moves()).len() <= 255,
        ensures
            final(self).was_found() == old(self).was_found(),
            spelled_out::<A>(word.moves()).len() == 0 ==> r is Ok && final(self)@ == old(self)@,
            match r {
                Ok(()) => {
                    &&& relaxed(old(self)@, final(self)@, 1)
                    &&& forall|i: int|
                        0 <= i < spelled_out::<A>(word.moves()).len() ==> (final(self).depth_of(
                            #[trigger] reached(spelled_out::<A>(word.moves()), i),
                        ) matches Some(filed) && filed <= i + 1)
                    &&& forall|i: int|
                        0 <= i < spelled_out::<A>(word.moves()).len() ==> #[trigger] within_count(
                            old(self)@,
                            final(self)@,
                            spelled_out::<A>(word.moves()),
                            i,
                        )
                    &&& forall|i: int|
                        0 <= i < spelled_out::<A>(word.moves()).len() ==> #[trigger] repaired_at(
                            old(self)@,
                            final(self)@,
                            spelled_out::<A>(word.moves()),
                            i,
                        )
                    &&& forall|i: int|
                        0 <= i < spelled_out::<A>(word.moves()).len() - 1 ==> #[trigger] steps_back(
                            final(self)@,
                            spelled_out::<A>(word.moves()),
                            i,
                        )
                    &&& exists|count: u8| #[trigger]
                        walked(
                            old(self)@,
                            spelled_out::<A>(word.moves()),
                            spelled_out::<A>(word.moves()).len() as int,
                            final(self)@,
                            count,
                        )
                    &&& settled::<A>(old(self)@, final(self)@)
                    &&& sound::<A>(old(self)@) ==> sound::<A>(final(self)@)
                    &&& word.is_consistent() && spelled_out::<A>(word.moves()).len() > 0 ==> (
                    final(self).depth_of(word.state()) matches Some(filed) && filed
                        <= spelled_out::<A>(word.moves()).len())
                },
                Err(e) => {
                    &&& e == ErrorKind::Io
                    &&& relaxed(old(self)@, final(self)@, 1)
                    &&& sound::<A>(old(self)@) ==> sound::<A>(final(self)@)
                },
            },
    {
        let actions = word.as_actions();
        let mut depth: u8 = 0;
        let mut cube: Cube<Position> = Cube::default();
        let mut i: usize = 0;
        proof {
            lemma_relaxed_same(self@, 1);
            lemma_settled_same::<A>(self@);
            lemma_reachable_solved::<A>();
            assert(moves_of(actions@.take(0)) =~= seq![]);
        }
        while i < actions.len()
            invariant
                self.was_found() == old(self).was_found(),
                i <= actions.len(),
                actions@.len() <= 255,
                actions@ == spelled_out::<A>(word.moves()),
                depth <= i,
                depth <= counted(old(self)@, actions@, i as int),
                i == 0 ==> self@ == old(self)@,
                walked(old(self)@, actions@, i as int, self@, depth),
                cube@ == set_out(actions@, i as int),
                i > 0 ==> depth_at(self@, cube_key(cube@)) == Some(depth),
                relaxed(old(self)@, self@, 1),
                settled::<A>(old(self)@, self@),
                sound::<A>(old(self)@) ==> sound::<A>(self@) && reachable_in::<A>(
                    cube@,
                    depth as int,
                ),
                forall|k: int|
                    0 <= k < i ==> (self.depth_of(#[trigger] reached(actions@, k)) matches Some(
                        filed,
                    ) && filed <= k + 1),
                forall|k: int|
                    0 <= k < i ==> #[trigger] within_count(old(self)@, self@, actions@, k),
                forall|k: int|
                    0 <= k < i ==> #[trigger] repaired_at(old(self)@, self@, actions@, k),
                forall|k: int| 0 <= k < i - 1 ==> #[trigger] steps_back(self@, actions@, k),
            decreases actions.len() - i,
        {
            let action = actions[i];
            let ghost before = self@;
            let ghost from = cube@;
            let ghost came = depth;
            proof {
                lemma_reached_next(actions@, i as int);
                if sound::<A>(old(self)@) {
                    lemma_reachable_push::<A>(from, depth as int, action);
                }
            }
            cube = cube.make_move(action.to_move());
            depth += 1;
            let prior = match self.insert_cube(&cube, depth) {
                Ok(prior) => prior,
                Err(e) => {
                    proof {
                        lemma_relaxed_transitive(old(self)@, before, self@, 1, depth as int, 1);
                    }
                    return Err(e);
                },
            };
            let ghost filed = self@;
            let ghost count = depth;
            proof {
                lemma_relaxed_transitive(before, before, filed, 1, depth as int, 1);
                lemma_relaxed_same(filed, 1);
            }
            match repair_of(depth, prior) {
                Repair::Relax => {
                    match self.relax_neighbors(&cube, depth) {
                        Ok(()) => {},
                        Err(e) => {
                            proof {
                                lemma_relaxed_transitive(before, filed, self@, 1, depth + 1, 1);
                                lemma_relaxed_transitive(old(self)@, before, self@, 1, 1, 1);
                            }
                            return Err(e);
                        },
                    }
                    proof {
                        lemma_relaxed_transitive(filed, filed, self@, 1, depth + 1, 1);
                        lemma_settled_by_relaxing::<A>(before, filed, self@, cube@, depth);
                        lemma_relaxed_keeps(filed, self@, depth + 1, cube_key(cube@));
                    }
                },
                Repair::Restart(known) => {
                    // the book knows a shorter way here: go on from its
                    // depth, and file the cube before anew
                    depth = known;
                    let back = cube.clone().make_move(action.inverse().to_move());
                    proof {
                        crate::cube::lemma_move_round_trip(from, action.as_move());
                        assert(back@ == from);
                        lemma_settled_by_filing::<A>(before, cube@, count);
                        if sound::<A>(old(self)@) {
                            assert(depth_at(filed, cube_key(cube@)) == Some(known));
                            assert(reachable_in::<A>(cube@, depth as int));
                            lemma_reachable_push::<A>(cube@, depth as int, action.inverted());
                        }
                    }
                    match self.update_cube(&back, depth + 1) {
                        Ok(()) => {},
                        Err(e) => {
                            proof {
                                lemma_relaxed_transitive(before, filed, self@, 1, depth + 1, 1);
                                lemma_relaxed_transitive(old(self)@, before, self@, 1, 1, 1);
                            }
                            return Err(e);
                        },
                    }
                    proof {
                        lemma_relaxed_transitive(filed, filed, self@, 1, depth + 1, 1);
                        lemma_settled_transitive::<A>(
                            before,
                            filed,
                            self@,
                            count as int,
                            depth + 1,
                        );
                        lemma_relaxed_keeps(filed, self@, depth + 1, cube_key(cube@));
                    }
                },
                Repair::Rest => {
                    proof {
                        lemma_settled_by_filing::<A>(before, cube@, count);
                    }
                },
            }
            proof {
                let here = i as int;
                assert(walk_step::<A>(before, came, from, action.as_move(), self@, depth));
                lemma_walked_step(old(self)@, actions@, here, before, came, self@, depth);
                assert(settled::<A>(before, self@));
                assert(depth_at(self@, cube_key(cube@)) == Some(depth));
                lemma_relaxed_transitive(before, filed, self@, 1, 1, 1);
                lemma_settled_transitive::<A>(old(self)@, before, self@, 1, 1);
                lemma_relaxed_transitive(old(self)@, before, self@, 1, 1, 1);
                lemma_relaxed_monotone(old(self)@, before, 1, cube_key(cube@));
                lemma_relaxed_monotone(before, self@, 1, cube_key(from));
                assert(depth <= counted(old(self)@, actions@, here + 1));
                assert forall|k: int| 0 <= k < i + 1 implies (self.depth_of(
                    #[trigger] reached(actions@, k),
                ) matches Some(on_record) && on_record <= k + 1) by {
                    let s = reached(actions@, k);
                    lemma_relaxed_monotone(before, self@, 1, cube_key(s));
                }
                assert forall|k: int| 0 <= k < i + 1 implies #[trigger] within_count(
                    old(self)@,
                    self@,
                    actions@,
                    k,
                ) by {
                    lemma_relaxed_monotone(before, self@, 1, cube_key(reached(actions@, k)));
                    if k < i {
                        assert(within_count(old(self)@, before, actions@, k));
                    }
                }
                assert forall|k: int| 0 <= k < i + 1 implies #[trigger] repaired_at(
                    old(self)@,
                    self@,
                    actions@,
                    k,
                ) by {
                    lemma_relaxed_monotone(before, self@, 1, cube_key(set_out(actions@, k)));
                    if k < i {
                        assert(repaired_at(old(self)@, before, actions@, k));
                    }
                }
                assert forall|k: int| 0 <= k < i + 1 - 1 implies #[trigger] steps_back(
                    self@,
                    actions@,
                    k,
                ) by {
                    let m = actions@[k + 1].as_move();
                    let t = reached(actions@, k);
                    let s = reached(actions@, k + 1);
                    lemma_reached_next(actions@, k);
                    lemma_reached_next(actions@, k + 1);
                    lemma_relaxed_monotone(before, self@, 1, cube_key(t));
                    lemma_relaxed_monotone(before, self@, 1, cube_key(s));
                    if k + 1 < i {
                        assert(steps_back(before, actions@, k));
                        if is_way_back::<A>(m) && lowered_at(before, self@, s) {
                            let j = choose|j: int|
                                0 <= j < A::vocabulary().len() && (#[trigger] A::vocabulary()[j]).as_move()
                                    == m.inverted();
                            crate::cube::lemma_move_round_trip(t, m);
                            assert(neighbor::<A>(s, j) == t);
                            assert(within_one::<A>(self@, s, j));
                        }
                    }
                }
            }
            i += 1;
        }
        proof {
            if word.is_consistent() && actions@.len() > 0 {
                let last = actions@.len() - 1;
                assert(actions@.take(last + 1) =~= actions@);
                lemma_spelled_out_reaches_same::<A>(solved(), word.moves());
                assert(reached(actions@, last) == word.state());
            }
        }
        Ok(())
    }

    /// Takes in the depths of a store: every cube of the store is filed
    /// at its depth, as `update_cube` files it, so that the news of every
    /// depth that went down goes round. A store without cubes changes
    /// nothing, and does not fail.
    pub fn merge_store(&mut self, store: &Store<A>) -> (r: Result<(), ErrorKind>)
        requires
            store.is_well_formed(),
        ensures
            final(self).was_found() == old(self).was_found(),
            store.met().len() == 0 ==> r is Ok && final(self)@ == old(self)@,
            match r {
                Ok(()) => {
                    &&& relaxed(old(self)@, final(self)@, 0)
                    &&& settled::<A>(old(self)@, final(self)@)
                    &&& forall|i: int|
                        0 <= i < store.met().len() ==> (final(self).depth_of(
                            (#[trigger] store.met()[i])@,
                        ) matches Some(filed) && filed <= store@[state_code(store.met()[i]@)])
                    &&& sound::<A>(old(self)@) && sound_depths::<A>(store@) ==> sound::<A>(
                        final(self)@,
                    )
                },
                Err(e) => {
                    &&& e == ErrorKind::Io
                    &&& relaxed(old(self)@, final(self)@, 0)
                    &&& sound::<A>(old(self)@) && sound_depths::<A>(store@) ==> sound::<A>(
                        final(self)@,
                    )
                },
            },
    {
        let mut i: usize = 0;
        proof {
            lemma_relaxed_same(self@, 0);
            lemma_settled_same::<A>(self@);
        }
        while i < store.len()
            invariant
                self.was_found() == old(self).was_found(),
                i <= store.met().len(),
                i == 0 ==> self@ == old(self)@,
                store.is_well_formed(),
                relaxed(old(self)@, self@, 0),
                settled::<A>(old(self)@, self@),
                sound::<A>(old(self)@) && sound_depths::<A>(store@) ==> sound::<A>(self@),
                forall|k: int|
                    0 <= k < i ==> (self.depth_of((#[trigger] store.met()[k])@) matches Some(
                        filed,
                    ) && filed <= store@[state_code(store.met()[k]@)]),
            decreases store.met().len() - i,
        {
            let cube = store.cube_at(i);
            let ghost before = self@;
            assert(store@.contains_key(state_code(store.met()[i as int]@)));
            proof {
                crate::cube::lemma_cube_len(store.met()[i as int]);
            }
            match store.get_depth(cube) {
                Some(depth) => {
                    match self.update_cube(cube, depth) {
                        Ok(()) => {},
                        Err(e) => {
                            proof {
                                lemma_relaxed_transitive(old(self)@, before, self@, 0, depth as int, 0);
                            }
                            return Err(e);
                        },
                    }
                    proof {
                        lemma_relaxed_transitive(before, before, self@, 0, depth as int, 0);
                    }
                },
                None => {},
            }
            proof {
                lemma_settled_transitive::<A>(old(self)@, before, self@, 0, 0);
                lemma_relaxed_transitive(old(self)@, before, self@, 0, 0, 0);
                assert forall|k: int| 0 <= k < i + 1 implies (self.depth_of(
                    (#[trigger] store.met()[k])@,
                ) matches Some(filed) && filed <= store@[state_code(store.met()[k]@)]) by {
                    lemma_relaxed_monotone(before, self@, 0, cube_key(store.met()[k]@));
                }
            }
            i += 1;
        }
        Ok(())
    }

    /// The size of the files of the book.
    pub fn size(&self) -> (r: Result<u64, ErrorKind>)
        ensures
            r matches Err(e) ==> e == ErrorKind::Io,
    {
        match store_size_on_disk(&self.db) {
            Ok(bytes) => Ok(bytes),
            Err(_) => Err(ErrorKind::Io),
        }
    }
}

} // verus!
