use rubiks::action::{Action, Move, QuarterTurn, Turn};
use rubiks::book::{
    check_schema, merge_depth, read_depth, repair_of, same_bytes, Book, Int, Repair,
};
use rubiks::cube::{Cube, Position};
use rubiks::cubelet::Axis;
use rubiks::error::ErrorKind;
use rubiks::word::Word;

/// A store that is gone when the test is over.
fn scratch() -> sled::Db {
    sled::Config::new().temporary(true).open().unwrap()
}

/// A path that no other test uses.
fn scratch_path(name: &str) -> String {
    let nanos = std::time::SystemTime::now()
        .duration_since(std::time::UNIX_EPOCH)
        .unwrap()
        .as_nanos();
    format!("/tmp/rubiks_{}_{}", name, nanos)
}

/// Opens the store at a path once more, so that it is removed when the
/// test is over.
fn reopen_to_remove(path: &str) -> sled::Db {
    sled::Config::new().path(path).temporary(true).open().unwrap()
}

#[test]
fn book_test_create_and_open_book() {
    let name = scratch_path("create_and_open");

    let res1: Result<Book<Move>, _> = Book::open(&name);
    assert!(res1.is_err());
    assert!(!std::path::Path::new(&name).exists());

    let new_book: Book<Move> = Book::create(&name).unwrap();
    let res2: Result<Book<Move>, _> = Book::create(&name);
    assert!(res2.is_err());
    drop(new_book);

    // what was created is found again, and is not created twice
    let res3: Result<Book<Move>, _> = Book::create(&name);
    assert_eq!(res3.err(), Some(ErrorKind::AlreadyExists));
    let found: Book<Move> = Book::open(&name).unwrap();
    assert_eq!(found.get_depth(&Cube::default()).unwrap(), Some(0));
    drop(found);
    let again: Book<Move> = Book::create_or_open(&name).unwrap();
    assert!(again.contains(&Cube::default()).unwrap());
    drop(again);

    let last: Book<Move> = Book::open_db(reopen_to_remove(&name)).unwrap();
    drop(last);
    assert!(!std::path::Path::new(&name).exists());
}

#[test]
fn test_create_and_open_book() {
    let name = scratch_path("test_create_book");

    let res1: Result<Book<Move>, _> = Book::open(&name);
    assert!(res1.is_err());
    assert_eq!(res1.err(), Some(ErrorKind::NotFound));
    assert!(!std::path::Path::new(&name).exists());

    let new_book: Book<Move> = Book::create(&name).unwrap();
    let res2: Result<Book<Move>, _> = Book::create(&name);
    assert!(res2.is_err());
    assert!(new_book.size().is_ok());

    drop(new_book);
    drop(reopen_to_remove(&name));
    assert!(!std::path::Path::new(&name).exists());

    // a store that was not there before holds no book
    let res3: Result<Book<Move>, _> = Book::open_db(scratch());
    assert_eq!(res3.err(), Some(ErrorKind::NotFound));
}

#[test]
fn create_or_open_makes_a_book_where_none_is() {
    let name = scratch_path("create_or_open");
    let made: Book<QuarterTurn> = Book::create_or_open(&name).unwrap();
    assert_eq!(made.get_depth(&Cube::default()).unwrap(), Some(0));
    drop(made);
    let last: Book<QuarterTurn> = Book::open_db(reopen_to_remove(&name)).unwrap();
    drop(last);
}

#[test]
fn test_insert() {
    let mut book: Book<Move> = Book::create_db(scratch()).unwrap();
    let mut cube = Cube::default();
    cube = cube.make_move(Move(Axis::X, 0, 1));
    book.insert_cube(&cube, 1).unwrap();
    cube = cube.make_move(Move(Axis::X, 0, 2));
    book.insert_cube(&cube, 2).unwrap();
    let cube3 = cube.clone().make_move(Move(Axis::Y, 0, 1));
    book.insert_cube(&cube3, 3).unwrap();

    assert_eq!(Some(3), book.get_depth(&cube3).unwrap());
    assert_eq!(Some(2), book.get_depth(&cube).unwrap());

    book.update_cube(&cube, 1).unwrap();

    assert_eq!(Some(2), book.get_depth(&cube3).unwrap());
    assert_eq!(Some(1), book.get_depth(&cube).unwrap());
}

#[test]
fn test_insert_word() {
    let mut book: Book<Turn> = Book::create_db(scratch()).unwrap();
    let word = Word::from_actions(&[Turn::R, Turn::R, Turn::R, Turn::U]);

    book.update_word(&word).unwrap();
    assert_eq!(Some(4), book.get_depth(word.cube()).unwrap());

    let normal = word.normal_form();
    assert_eq!(normal.as_actions(), vec![Turn::R3, Turn::U]);
    book.update_word(&normal).unwrap();
    assert_eq!(
        Some(1),
        book.get_depth(&Cube::default().make_move(Turn::R3.to_move())).unwrap()
    );
    assert_eq!(Some(2), book.get_depth(normal.cube()).unwrap());
}

#[test]
fn test_update_word_backtrack() {
    let mut book: Book<Turn> = Book::create_db(scratch()).unwrap();

    let mut word = Word::new();
    let mut mid18 = Word::new();
    let mut count = 0;
    for _ in 0..6 {
        for t in [Turn::R3, Turn::D3, Turn::R, Turn::D] {
            word.make_move(t);
            count += 1;
            if count == 18 {
                mid18 = word.clone();
            }
        }
    }

    book.update_word(&word).unwrap();
    assert_eq!(Cube::default(), word.cube);
    assert_eq!(Some(6), book.get_depth(&mid18.cube).unwrap());
    // the solved cube, met again at the end of the walk, stays where it was
    assert_eq!(Some(0), book.get_depth(&Cube::default()).unwrap());
    // and every cube of the walk is as near as the way back makes it
    let mut walk: Word<Turn> = Word::new();
    let mut steps = 0u8;
    for t in word.as_actions() {
        walk.make_move(t);
        steps += 1;
        let expected = std::cmp::min(steps, 24 - steps);
        assert_eq!(Some(expected), book.get_depth(walk.cube()).unwrap());
    }
}

#[test]
fn a_book_is_for_one_vocabulary() {
    let name = scratch_path("schema_mismatch");
    let made: Book<Turn> = Book::create(&name).unwrap();
    drop(made);
    let other: Result<Book<Move>, _> = Book::open(&name);
    assert_eq!(other.err(), Some(ErrorKind::SchemaMismatch));
    let quarter: Result<Book<QuarterTurn>, _> = Book::open(&name);
    assert_eq!(quarter.err(), Some(ErrorKind::SchemaMismatch));
    let same: Book<Turn> = Book::open_db(reopen_to_remove(&name)).unwrap();
    drop(same);
}

#[test]
fn a_store_without_the_records_of_a_book_is_corrupt() {
    let name = scratch_path("corrupt");
    let db = sled::open(&name).unwrap();
    db.open_tree(b"book").unwrap().insert(b"stray", b"record").unwrap();
    drop(db);
    let opened: Result<Book<Turn>, _> = Book::open(&name);
    assert_eq!(opened.err(), Some(ErrorKind::Corrupt));

    // the label alone is not enough: the mark of packed keys is missing
    let db = sled::open(&name).unwrap();
    db.open_tree(b"book").unwrap().insert(b"this_books_action_type", b"Turn").unwrap();
    drop(db);
    let opened: Result<Book<Turn>, _> = Book::open(&name);
    assert_eq!(opened.err(), Some(ErrorKind::Corrupt));

    // nor are both without the solved cube
    let db = sled::open(&name).unwrap();
    db.open_tree(b"book").unwrap().insert(b"this_books_packed_attribute", b"true").unwrap();
    drop(db);
    let opened: Result<Book<Turn>, _> = Book::open(&name);
    assert_eq!(opened.err(), Some(ErrorKind::Corrupt));

    // keys that are not packed are another schema
    let db = sled::open(&name).unwrap();
    db.open_tree(b"book").unwrap().insert(b"this_books_packed_attribute", b"false").unwrap();
    drop(db);
    let opened: Result<Book<Turn>, _> = Book::open(&name);
    assert_eq!(opened.err(), Some(ErrorKind::SchemaMismatch));
    drop(reopen_to_remove(&name));
}

#[test]
fn the_verdict_on_a_store() {
    let turn = Some(b"Turn".to_vec());
    let packed = Some(b"true".to_vec());
    assert_eq!(check_schema(b"Turn", true, &turn, &packed, Some(0)), Ok(()));
    assert_eq!(check_schema(b"Turn", true, &turn, &packed, Some(7)), Ok(()));
    assert_eq!(check_schema(b"Turn", false, &turn, &packed, Some(0)), Err(ErrorKind::NotFound));
    assert_eq!(check_schema(b"Turn", false, &None, &None, None), Err(ErrorKind::NotFound));
    assert_eq!(check_schema(b"Turn", true, &None, &packed, Some(0)), Err(ErrorKind::Corrupt));
    assert_eq!(
        check_schema(b"Move", true, &turn, &packed, Some(0)),
        Err(ErrorKind::SchemaMismatch)
    );
    assert_eq!(
        check_schema(b"Move", true, &turn, &None, None),
        Err(ErrorKind::SchemaMismatch)
    );
    assert_eq!(check_schema(b"Turn", true, &turn, &None, Some(0)), Err(ErrorKind::Corrupt));
    assert_eq!(
        check_schema(b"Turn", true, &turn, &Some(b"false".to_vec()), Some(0)),
        Err(ErrorKind::SchemaMismatch)
    );
    assert_eq!(check_schema(b"Turn", true, &turn, &packed, None), Err(ErrorKind::Corrupt));
}

#[test]
fn labels_of_the_vocabularies() {
    assert_eq!(<Move as Action>::name(), b"Move".to_vec());
    assert_eq!(<Turn as Action>::name(), b"Turn".to_vec());
    assert_eq!(<QuarterTurn as Action>::name(), b"QuarterTurn".to_vec());
}

#[test]
fn insert_cube_keeps_the_lesser_depth_and_gives_the_earlier_one() {
    let mut book: Book<Turn> = Book::create_db(scratch()).unwrap();
    let cube: Cube<Position> = Cube::default().make_move(Turn::F.to_move());
    assert!(!book.contains(&cube).unwrap());
    assert_eq!(book.get_depth(&cube).unwrap(), None);
    assert_eq!(book.insert_cube(&cube, 9).unwrap(), None);
    assert!(book.contains(&cube).unwrap());
    assert_eq!(book.get_depth(&cube).unwrap(), Some(9));
    assert_eq!(book.insert_cube(&cube, 12).unwrap(), Some(9));
    assert_eq!(book.get_depth(&cube).unwrap(), Some(9));
    assert_eq!(book.insert_cube(&cube, 4).unwrap(), Some(9));
    assert_eq!(book.get_depth(&cube).unwrap(), Some(4));
    assert_eq!(book.insert_cube(&cube, 4).unwrap(), Some(4));
    // the solved cube cannot be made deeper
    assert_eq!(book.insert_cube(&Cube::default(), 3).unwrap(), Some(0));
    assert_eq!(book.get_depth(&Cube::default()).unwrap(), Some(0));
}

#[test]
fn update_cube_of_a_new_cube_files_it_alone() {
    let mut book: Book<Turn> = Book::create_db(scratch()).unwrap();
    let cube: Cube<Position> = Cube::default().make_move(Turn::F.to_move());
    book.update_cube(&cube, 5).unwrap();
    assert_eq!(book.get_depth(&cube).unwrap(), Some(5));
    let near = cube.clone().make_move(Turn::U.to_move());
    assert_eq!(book.get_depth(&near).unwrap(), None);
    // a greater depth changes nothing
    book.update_cube(&cube, 8).unwrap();
    assert_eq!(book.get_depth(&cube).unwrap(), Some(5));
    assert_eq!(book.get_depth(&near).unwrap(), None);
    // a lesser one is filed, and one more for every cube next to it
    book.update_cube(&cube, 1).unwrap();
    assert_eq!(book.get_depth(&cube).unwrap(), Some(1));
    for turn in Turn::all() {
        let next = cube.clone().make_move(turn.to_move());
        let depth = book.get_depth(&next).unwrap().unwrap();
        assert!(depth <= 2);
    }
    assert_eq!(book.get_depth(&near).unwrap(), Some(2));
    assert_eq!(book.get_depth(&Cube::default()).unwrap(), Some(0));
}

#[test]
fn records_of_depth() {
    assert_eq!(merge_depth(None, 7), vec![7]);
    assert_eq!(merge_depth(Some(&[3]), 7), vec![3]);
    assert_eq!(merge_depth(Some(&[9]), 7), vec![7]);
    assert_eq!(merge_depth(Some(&[7, 1, 1]), 7), vec![7]);
    assert_eq!(merge_depth(Some(&[]), 7), vec![7]);
    assert_eq!(read_depth(&None), None);
    assert_eq!(read_depth(&Some(vec![])), None);
    assert_eq!(read_depth(&Some(vec![5])), Some(5));
    assert_eq!(read_depth(&Some(vec![5, 6])), Some(5));
    assert!(same_bytes(b"Turn", b"Turn"));
    assert!(!same_bytes(b"Turn", b"Turns"));
    assert!(!same_bytes(b"Turn", b"Tur"));
    assert!(!same_bytes(b"Turn", b"Turm"));
    assert!(same_bytes(b"", b""));
}

#[test]
fn keys_of_cubes_are_thirteen_bytes_and_tell_cubes_apart() {
    let solved: Cube<Position> = Cube::default();
    let key = Book::<Turn>::key_of(&solved);
    // a hundred bits of orientations, and four bits over in which no
    // sentinel fits
    assert_eq!(key, vec![0; 13]);
    let turned = solved.make_move(Turn::L.to_move());
    let other = Book::<Turn>::key_of(&turned);
    assert_eq!(other.len(), 13);
    assert_ne!(key, other);
    assert_eq!(rubiks::codec::unpack::<rubiks::cubelet::Rotation>(&other), turned.cubelets.to_vec());
}

#[test]
fn a_store_that_was_there_is_not_created_and_one_that_was_not_is_not_opened() {
    let made: Result<Book<Turn>, _> = Book::create_with(scratch(), true);
    assert_eq!(made.err(), Some(ErrorKind::AlreadyExists));
    let opened: Result<Book<Turn>, _> = Book::open_with(scratch(), false);
    assert_eq!(opened.err(), Some(ErrorKind::NotFound));
    // a store that was there, but holds nothing, is no book
    let opened: Result<Book<Turn>, _> = Book::open_with(scratch(), true);
    assert_eq!(opened.err(), Some(ErrorKind::Corrupt));
    let made: Book<Turn> = Book::create_with(scratch(), false).unwrap();
    assert_eq!(made.get_depth(&Cube::default()).unwrap(), Some(0));
}

#[test]
fn a_word_is_filed_with_its_cube() {
    let mut book: Book<QuarterTurn> = Book::create_db(scratch()).unwrap();
    let word = Word::from_actions(&[QuarterTurn::F, QuarterTurn::F, QuarterTurn::U3]);
    assert_eq!(book.insert(&word, 3).unwrap(), None);
    assert_eq!(book.get_depth(word.cube()).unwrap(), Some(3));
    assert_eq!(book.insert(&word, 2).unwrap(), Some(3));
    assert_eq!(book.get_depth(word.cube()).unwrap(), Some(2));
    // the words of half turns are walked in quarter turns
    let half: Word<QuarterTurn> =
        Word::from_parts_unchecked(Cube::default().make_move(Move(Axis::X, 2, 0)), vec![Move(Axis::X, 2, 0)]);
    book.update_word(&half).unwrap();
    assert_eq!(book.get_depth(half.cube()).unwrap(), Some(2));
    assert_eq!(
        book.get_depth(&Cube::default().make_move(QuarterTurn::L.to_move())).unwrap(),
        Some(1)
    );
}

#[test]
fn depths_of_one_two_and_four_bytes() {
    assert_eq!(7u8.to_bytes(), vec![7]);
    assert_eq!(u8::from_bytes(&[200]), 200);
    assert_eq!(0x1234u16.to_bytes(), vec![0x34, 0x12]);
    assert_eq!(u16::from_bytes(&[0x34, 0x12]), 0x1234);
    assert_eq!(u16::from_bytes(&u16::MAX.to_bytes()), u16::MAX);
    assert_eq!(0x01020304u32.to_bytes(), vec![4, 3, 2, 1]);
    assert_eq!(u32::from_bytes(&[4, 3, 2, 1]), 0x01020304);
    assert_eq!(u32::from_bytes(&u32::MAX.to_bytes()), u32::MAX);
    assert_eq!(0u32.to_bytes(), vec![0, 0, 0, 0]);
}

#[test]
fn a_store_is_merged_into_a_book() {
    let mut book: Book<Turn> = Book::create_db(scratch()).unwrap();
    let near: Cube<Position> = Cube::default().make_move(Turn::R.to_move());
    let far = near.clone().make_move(Turn::U.to_move());
    book.insert_cube(&near, 5).unwrap();
    book.insert_cube(&far, 6).unwrap();
    let mut store: rubiks::store::Store<Turn> = rubiks::store::Store::new();
    store.insert_cube(&near, 1);
    let other: Cube<Position> = Cube::default().make_move(Turn::L.to_move());
    store.insert_cube(&other, 1);
    book.merge_store(&store).unwrap();
    assert_eq!(book.get_depth(&near).unwrap(), Some(1));
    assert_eq!(book.get_depth(&other).unwrap(), Some(1));
    assert_eq!(book.get_depth(&far).unwrap(), Some(2));
    assert_eq!(book.get_depth(&Cube::default()).unwrap(), Some(0));
}

#[test]
fn a_book_is_made_in_an_empty_store_only() {
    let db = scratch();
    db.open_tree(b"book").unwrap().insert(b"stray", b"record").unwrap();
    let made: Result<Book<Turn>, _> = Book::create_with(db, false);
    assert_eq!(made.err(), Some(ErrorKind::AlreadyExists));
    // records in other trees of the store are none of the book's
    let db = scratch();
    db.insert(b"stray", b"record").unwrap();
    let made: Book<Turn> = Book::create_with(db, false).unwrap();
    assert_eq!(made.get_depth(&Cube::default()).unwrap(), Some(0));
}

#[test]
fn a_store_that_was_found_is_opened_and_not_made() {
    let name = scratch_path("found");
    let made: Book<Turn> = Book::create_db(sled::open(&name).unwrap()).unwrap();
    drop(made);
    // the store at the path is found now
    let again: Result<Book<Turn>, _> = Book::create_db(sled::open(&name).unwrap());
    assert_eq!(again.err(), Some(ErrorKind::AlreadyExists));
    let found: Book<Turn> = Book::open_db(sled::open(&name).unwrap()).unwrap();
    assert_eq!(found.get_depth(&Cube::default()).unwrap(), Some(0));
    drop(found);
    // a store that is made when it is opened is not
    let none: Result<Book<Turn>, _> = Book::open_db(scratch());
    assert_eq!(none.err(), Some(ErrorKind::NotFound));
    let last: Book<Turn> = Book::open_db(reopen_to_remove(&name)).unwrap();
    drop(last);
}

#[test]
fn a_tree_is_judged_by_its_records() {
    let db = scratch();
    let made: Book<Turn> = Book::create_db(db.clone()).unwrap();
    drop(made);
    let tree = db.open_tree(b"book").unwrap();
    // written for another vocabulary
    let other: Result<Book<Move>, _> = Book::open_tree(db.clone(), tree.clone(), true);
    assert_eq!(other.err(), Some(ErrorKind::SchemaMismatch));
    // for its own vocabulary it opens, with the solved cube at 0
    let same: Book<Turn> = Book::open_tree(db.clone(), tree.clone(), true).unwrap();
    assert_eq!(same.get_depth(&Cube::default()).unwrap(), Some(0));
    drop(same);
    // a store that was not there before is not found, whatever it holds
    let none: Result<Book<Turn>, _> = Book::open_tree(db.clone(), tree.clone(), false);
    assert_eq!(none.err(), Some(ErrorKind::NotFound));
    // without the depth of the solved cube the book is corrupt
    tree.remove(Book::<Turn>::key_of(&Cube::default())).unwrap();
    let holed: Result<Book<Turn>, _> = Book::open_tree(db.clone(), tree.clone(), true);
    assert_eq!(holed.err(), Some(ErrorKind::Corrupt));
    // and nothing was written on the way
    assert_eq!(tree.len(), 2);
}

#[test]
fn what_a_walk_does_at_a_state() {
    assert!(matches!(repair_of(3, None), Repair::Rest));
    assert!(matches!(repair_of(3, Some(3)), Repair::Rest));
    assert!(matches!(repair_of(3, Some(4)), Repair::Relax));
    assert!(matches!(repair_of(3, Some(255)), Repair::Relax));
    assert!(matches!(repair_of(3, Some(2)), Repair::Restart(2)));
    assert!(matches!(repair_of(255, Some(0)), Repair::Restart(0)));
}

#[test]
fn a_word_without_actions_changes_nothing() {
    let db = scratch();
    let mut book: Book<Turn> = Book::create_db(db.clone()).unwrap();
    let word: Word<Turn> = Word::new();
    assert_eq!(book.update_word(&word), Ok(()));
    assert_eq!(db.open_tree(b"book").unwrap().len(), 3);
    assert_eq!(book.get_depth(&Cube::default()).unwrap(), Some(0));
}

#[test]
fn a_walk_through_new_states_files_each_at_its_count() {
    let db = scratch();
    let mut book: Book<Turn> = Book::create_db(db.clone()).unwrap();
    let mut word: Word<Turn> = Word::new();
    for t in [Turn::R, Turn::R, Turn::R, Turn::U] {
        word.make_move(t);
    }
    book.update_word(&word).unwrap();
    let mut walk: Word<Turn> = Word::new();
    let mut steps = 0u8;
    for t in [Turn::R, Turn::R, Turn::R, Turn::U] {
        walk.make_move(t);
        steps += 1;
        assert_eq!(book.get_depth(walk.cube()).unwrap(), Some(steps));
    }
    // the two records of the schema, the solved cube and the four of the walk
    assert_eq!(db.open_tree(b"book").unwrap().len(), 7);
}

#[test]
fn the_count_goes_on_from_a_state_known_nearer() {
    let mut book: Book<Turn> = Book::create_db(scratch()).unwrap();
    let mut word: Word<Turn> = Word::new();
    for t in [Turn::R, Turn::R, Turn::R, Turn::R, Turn::U] {
        word.make_move(t);
    }
    book.update_word(&word).unwrap();
    let start: Cube<Position> = Cube::default();
    let one = start.clone().make_move(Turn::R.to_move());
    let two = one.clone().make_move(Turn::R.to_move());
    let three = two.clone().make_move(Turn::R.to_move());
    // the fourth turn leads back to the solved cube, which stays at 0
    assert_eq!(book.get_depth(&start).unwrap(), Some(0));
    // the cube before it is filed at one more, and tells the cubes next to it
    assert_eq!(book.get_depth(&three).unwrap(), Some(1));
    assert_eq!(book.get_depth(&two).unwrap(), Some(2));
    assert_eq!(book.get_depth(&one).unwrap(), Some(1));
    // and the count went on from 0
    let last = start.clone().make_move(Turn::U.to_move());
    assert_eq!(book.get_depth(&last).unwrap(), Some(1));
}

#[test]
fn update_cube_without_news_touches_nothing_else() {
    let db = scratch();
    let mut book: Book<Turn> = Book::create_db(db.clone()).unwrap();
    let one = Cube::default().make_move(Turn::R.to_move());
    book.insert_cube(&one, 2).unwrap();
    // at the depth on record, and at a greater one
    book.update_cube(&one, 2).unwrap();
    book.update_cube(&one, 5).unwrap();
    assert_eq!(book.get_depth(&one).unwrap(), Some(2));
    assert_eq!(db.open_tree(b"book").unwrap().len(), 4);
    // news of a shorter way goes round
    book.update_cube(&one, 1).unwrap();
    assert_eq!(book.get_depth(&one).unwrap(), Some(1));
    assert_eq!(db.open_tree(b"book").unwrap().len(), 3 + Turn::all().len());
}

#[test]
fn a_store_without_cubes_merges_to_nothing() {
    let db = scratch();
    let mut book: Book<Move> = Book::create_db(db.clone()).unwrap();
    let store: rubiks::store::Store<Move> = rubiks::store::Store::empty();
    assert_eq!(book.merge_store(&store), Ok(()));
    assert_eq!(db.open_tree(b"book").unwrap().len(), 3);
}
