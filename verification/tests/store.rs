use rubiks::action::{Action, Move, Turn};
use rubiks::cube::{Cube, Position};
use rubiks::cubelet::Axis;
use rubiks::store::{code_of, Store};
use rubiks::strategy::{
    next_moves, same_cube, Cycle, MultiTree, PartialTree, Strategy, TreeSearch, Update,
};

#[test]
fn a_new_store_holds_the_solved_cube() {
    let store: Store<Turn> = Store::new();
    assert_eq!(store.len(), 1);
    assert_eq!(store.get_depth(&Cube::default()), Some(0));
    assert_eq!(*store.cube_at(0), Cube::default());
    let roomy: Store<Turn> = Store::with_capacity(1000);
    assert_eq!(roomy.len(), 1);
    assert_eq!(roomy.get_depth(&Cube::default()), Some(0));
    let cube: Cube<Position> = Cube::default().make_move(Turn::R.to_move());
    assert_eq!(store.get_depth(&cube), None);
}

#[test]
fn codes_tell_cubes_apart() {
    let solved: Cube<Position> = Cube::default();
    assert_eq!(code_of(&solved), 0);
    let mut seen = std::collections::HashSet::new();
    seen.insert(code_of(&solved));
    for m in Move::all() {
        let cube = solved.clone().make_move(m);
        assert!(seen.insert(code_of(&cube)));
    }
    // the first slot is in the five highest bits of the first byte, which
    // is the least significant
    let mut one = solved.clone();
    one.cubelets[0] = rubiks::cubelet::Rotation::X;
    assert_eq!(code_of(&one), 0b00001000);
}

#[test]
fn a_store_keeps_the_lesser_depth() {
    let mut store: Store<Turn> = Store::new();
    let cube: Cube<Position> = Cube::default().make_move(Turn::R.to_move());
    assert_eq!(store.insert_cube(&cube, 7), None);
    assert_eq!(store.len(), 2);
    assert_eq!(store.insert_cube(&cube, 9), Some(7));
    assert_eq!(store.get_depth(&cube), Some(7));
    assert_eq!(store.insert_cube(&cube, 3), Some(7));
    assert_eq!(store.get_depth(&cube), Some(3));
    assert_eq!(store.len(), 2);
    let copy = store.clone();
    assert_eq!(copy.get_depth(&cube), Some(3));
    assert_eq!(copy.len(), 2);
}

#[test]
fn update_cube_tells_the_cubes_next_to_it() {
    let mut store: Store<Turn> = Store::new();
    let cube: Cube<Position> = Cube::default().make_move(Turn::R.to_move());
    let next = cube.clone().make_move(Turn::U.to_move());
    store.insert_cube(&cube, 5);
    store.insert_cube(&next, 6);
    store.update_cube(&cube, 1);
    assert_eq!(store.get_depth(&cube), Some(1));
    assert_eq!(store.get_depth(&next), Some(2));
    assert_eq!(store.get_depth(&Cube::default()), Some(0));
    for t in Turn::all() {
        let near = cube.clone().make_move(t.to_move());
        assert!(store.get_depth(&near).unwrap() <= 2);
    }
}

#[test]
fn stores_are_merged_to_the_lesser_depths() {
    let a_cube: Cube<Position> = Cube::default().make_move(Turn::R.to_move());
    let b_cube: Cube<Position> = Cube::default().make_move(Turn::L.to_move());
    let far = a_cube.clone().make_move(Turn::U.to_move());
    let mut ours: Store<Turn> = Store::new();
    ours.insert_cube(&a_cube, 5);
    ours.insert_cube(&far, 6);
    let mut theirs: Store<Turn> = Store::new();
    theirs.insert_cube(&a_cube, 1);
    theirs.insert_cube(&b_cube, 1);
    theirs.insert_cube(&far, 9);
    ours.extend_from_store(theirs);
    assert_eq!(ours.get_depth(&a_cube), Some(1));
    assert_eq!(ours.get_depth(&b_cube), Some(1));
    // the cube next to the one whose depth went down was filed anew
    assert_eq!(ours.get_depth(&far), Some(2));
    assert_eq!(ours.get_depth(&Cube::default()), Some(0));
}

#[test]
fn a_tree_search_of_depth_one_meets_45_cubes() {
    let mut store: Store<Move> = Store::new();
    let start: Cube<Position> = Cube::default();
    TreeSearch { prev_move: None, current_depth: 0, search_depth: 1 }.explore(&mut store, &start);
    assert_eq!(store.len(), 46);
    for m in Move::all() {
        assert_eq!(store.get_depth(&start.clone().make_move(m)), Some(1));
    }
    let two = start.clone().make_move(Move(Axis::X, 1, 0)).make_move(Move(Axis::Y, 1, 0));
    assert_eq!(store.get_depth(&two), None);
}

#[test]
fn a_tree_search_of_depth_two() {
    let mut store: Store<Move> = Store::new();
    let start: Cube<Position> = Cube::default();
    TreeSearch { prev_move: None, current_depth: 0, search_depth: 2 }.explore(&mut store, &start);
    // 45 first moves, and 30 about another axis after each, a few of which
    // lead to one cube by two ways
    assert!(store.len() > 1 + 45);
    assert!(store.len() <= 1 + 45 + 45 * 30);
    for m in Move::all() {
        let one = start.clone().make_move(m);
        assert_eq!(store.get_depth(&one), Some(1));
        for n in next_moves(Some(m)) {
            assert_eq!(store.get_depth(&one.clone().make_move(n)), Some(2));
        }
    }
    let two = start.clone().make_move(Move(Axis::X, 1, 0)).make_move(Move(Axis::Y, 1, 0));
    assert_eq!(store.get_depth(&two), Some(2));
    // a search that has nowhere to go changes nothing
    let before = store.len();
    TreeSearch { prev_move: None, current_depth: 2, search_depth: 2 }.explore(&mut store, &two);
    assert_eq!(store.len(), before);
}

#[test]
fn no_move_follows_a_move_about_its_axis() {
    assert_eq!(next_moves(None), Move::all());
    let after = next_moves(Some(Move(Axis::Y, 1, 2)));
    assert_eq!(after.len(), 30);
    assert!(after.iter().all(|m| m.0 != Axis::Y));
    assert_eq!(after[0], Move(Axis::X, 0, 1));
    assert_eq!(after[15], Move(Axis::Z, 0, 1));
    let after = next_moves(Some(Move(Axis::X, 1, 2)));
    assert_eq!(after[0], Move(Axis::Y, 0, 1));
    assert_eq!(after[29], Move(Axis::Z, 3, 3));
}

#[test]
fn jobs_are_searched_from_their_ends() {
    let jobs: Vec<Vec<Move>> = Move::axis_moves(Axis::X).iter().map(|m| vec![*m]).collect();
    let multi = MultiTree { search_depth: 2, jobs };
    let mut whole: Store<Move> = Store::new();
    let start: Cube<Position> = Cube::default();
    multi.explore(&mut whole, &start);
    assert!(whole.len() > 1 + 15);
    assert!(whole.len() <= 1 + 15 + 15 * 30);

    // the same by one store for each job, merged at the end
    let mut shared: Store<Move> = Store::new();
    let mut own: Vec<Store<Move>> = Vec::new();
    for job in &multi.jobs {
        let mut store = shared.clone();
        let from = MultiTree::start_of(job, &mut store, &start);
        assert_eq!(from.depth, 1);
        assert_eq!(from.last_move, Some(job[0]));
        assert_eq!(from.cube, start.clone().make_move(job[0]));
        multi.search_job(&from, &mut store);
        own.push(store);
    }
    for store in own {
        shared.extend_from_store(store);
    }
    assert_eq!(shared.len(), whole.len());
    for i in 0..whole.len() {
        let cube = whole.cube_at(i);
        assert_eq!(shared.get_depth(cube), whole.get_depth(cube));
    }
}

#[test]
fn a_partial_tree_follows_its_axes() {
    let mut store: Store<Move> = Store::new();
    let start: Cube<Position> = Cube::default();
    PartialTree { axes: vec![Axis::X, Axis::Z], current_depth: 0 }.explore(&mut store, &start);
    assert!(store.len() > 1 + 15);
    assert!(store.len() <= 1 + 15 + 15 * 15);
    let met = store.len();
    let two = start.clone().make_move(Move(Axis::X, 1, 0)).make_move(Move(Axis::Z, 1, 0));
    assert_eq!(store.get_depth(&two), Some(2));
    let other = start.clone().make_move(Move(Axis::Z, 1, 0));
    assert_eq!(store.get_depth(&other), None);
    PartialTree { axes: vec![], current_depth: 0 }.explore(&mut store, &start);
    assert_eq!(store.len(), met);
}

#[test]
fn a_cycle_comes_back_to_where_it_set_out() {
    let mut store: Store<Move> = Store::new();
    let start: Cube<Position> = Cube::default();
    // four quarter turns of one face
    Cycle { moves: vec![Move(Axis::X, 1, 0)] }.explore(&mut store, &start);
    assert_eq!(store.get_depth(&start), Some(0));
    let one = start.clone().make_move(Move(Axis::X, 1, 0));
    let two = start.clone().make_move(Move(Axis::X, 2, 0));
    let three = start.clone().make_move(Move(Axis::X, 3, 0));
    assert_eq!(store.get_depth(&one), Some(1));
    assert_eq!(store.get_depth(&two), Some(1));
    assert_eq!(store.get_depth(&three), Some(1));
    // a cube that the store does not know sets nothing off
    let mut fresh: Store<Move> = Store::new();
    Cycle { moves: vec![Move(Axis::X, 1, 0)] }.explore(&mut fresh, &one);
    assert_eq!(fresh.len(), 1);
    Cycle { moves: vec![] }.explore(&mut fresh, &start);
    assert_eq!(fresh.len(), 1);
}

#[test]
fn update_files_the_cubes_next_to_a_known_one() {
    let mut store: Store<Move> = Store::new();
    let start: Cube<Position> = Cube::default();
    Update.explore(&mut store, &start);
    assert_eq!(store.len(), 46);
    let unknown = start.clone().make_move(Move(Axis::X, 1, 0)).make_move(Move(Axis::Y, 1, 0));
    Update.explore(&mut store, &unknown);
    assert_eq!(store.len(), 46);
    assert!(same_cube(&start, &Cube::default()));
    assert!(!same_cube(&start, &unknown));
}

/// No criteria: every cube is searched from.
fn no_criteria() -> Vec<Box<dyn Fn(&Cube<Position>, u8) -> bool>> {
    vec![]
}

#[test]
fn expand_searches_from_every_cube_that_is_known() {
    let mut store: Store<Move> = Store::new();
    let start: Cube<Position> = Cube::default();
    let one = TreeSearch { prev_move: None, current_depth: 0, search_depth: 1 };
    store.expand(&one, no_criteria());
    assert_eq!(store.len(), 46);
    // from each of the 46, one move farther; the counts start anew at
    // each, so that nothing is filed nearer than it was
    store.expand(&one, no_criteria());
    assert!(store.len() > 46);
    assert_eq!(store.get_depth(&start), Some(0));
    for m in Move::all() {
        assert_eq!(store.get_depth(&start.clone().make_move(m)), Some(1));
    }
    let two = start.clone().make_move(Move(Axis::X, 1, 0)).make_move(Move(Axis::Y, 1, 0));
    assert_eq!(store.get_depth(&two), Some(1));
}

#[test]
fn records_of_a_store() {
    use_records();
}

fn use_records() {
    let cube: Cube<Position> = Cube::default().make_move(Move(Axis::X, 1, 0));
    let record = rubiks::store::to_record(&cube, 7);
    assert_eq!(record.len(), 21);
    assert_eq!(&record[..8], &[1; 8]);
    assert_eq!(&record[8..20], &[0; 12]);
    assert_eq!(record[20], 7);
    assert_eq!(rubiks::store::from_record(&record), Ok((cube, 7)));
    assert_eq!(
        rubiks::store::from_record(&record[..20]),
        Err(rubiks::error::ErrorKind::InvalidEncoding)
    );
    let mut wrong = record.clone();
    wrong[3] = 24;
    assert_eq!(
        rubiks::store::from_record(&wrong),
        Err(rubiks::error::ErrorKind::InvalidEncoding)
    );
}

#[test]
fn a_search_without_jobs_changes_nothing() {
    let mut store: Store<Move> = Store::new();
    let start: Cube<Position> = Cube::default();
    Update.explore(&mut store, &start);
    let before = store.clone();
    MultiTree { search_depth: 3, jobs: vec![] }.explore(&mut store, &start);
    assert_eq!(store.len(), before.len());
    for i in 0..before.len() {
        assert_eq!(store.get_depth(before.cube_at(i)), before.get_depth(before.cube_at(i)));
    }
}

#[test]
fn every_cube_of_a_walk_is_filed_within_the_count_of_its_moves() {
    let moves = vec![Move(Axis::X, 1, 0), Move(Axis::Y, 1, 0)];
    let mut store: Store<Move> = Store::new();
    let start: Cube<Position> = Cube::default();
    Cycle { moves: moves.clone() }.explore(&mut store, &start);
    // the walk is back where it set out after 210 moves, and not before
    let mut cube = start.clone();
    let mut steps: usize = 0;
    loop {
        cube = cube.make_move(moves[steps % 2]);
        steps += 1;
        let filed = store.get_depth(&cube).unwrap();
        assert!(usize::from(filed) <= steps);
        if same_cube(&cube, &start) {
            break;
        }
    }
    assert_eq!(steps, 210);
    assert_eq!(store.get_depth(&start), Some(0));
    let one = start.clone().make_move(moves[0]);
    assert_eq!(store.get_depth(&one), Some(1));
    let two = one.clone().make_move(moves[1]);
    assert_eq!(store.get_depth(&two), Some(2));
}

#[test]
fn a_job_is_searched_as_a_tree_from_its_end() {
    let job = vec![Move(Axis::X, 1, 0), Move(Axis::Y, 0, 2)];
    let start: Cube<Position> = Cube::default();
    let multi = MultiTree { search_depth: 3, jobs: vec![job.clone()] };
    let mut store: Store<Move> = Store::new();
    let from = MultiTree::start_of(&job, &mut store, &start);
    assert_eq!(from.depth, 2);
    assert_eq!(from.last_move, Some(job[1]));
    let mut tree = store.clone();
    multi.search_job(&from, &mut store);
    TreeSearch { prev_move: from.last_move, current_depth: 2, search_depth: 3 }
        .explore(&mut tree, &from.cube);
    assert_eq!(store.len(), tree.len());
    assert_eq!(store.len(), 1 + 2 + 30);
    for i in 0..tree.len() {
        assert_eq!(store.get_depth(tree.cube_at(i)), tree.get_depth(tree.cube_at(i)));
    }
    // no move about the axis of the last move of the job is made
    let on = from.cube.clone().make_move(Move(Axis::Z, 1, 0));
    assert_eq!(store.get_depth(&on), Some(3));
    let off = from.cube.clone().make_move(Move(Axis::Y, 1, 0));
    assert_eq!(store.get_depth(&off), None);
}

#[test]
fn a_new_store_holds_one_cube_and_an_empty_one_none() {
    let store: Store<Move> = Store::new();
    assert_eq!(store.len(), 1);
    assert_eq!(*store.cube_at(0), Cube::default());
    assert_eq!(store.get_depth(&Cube::default()), Some(0));
    let empty: Store<Move> = Store::empty();
    assert_eq!(empty.len(), 0);
    assert_eq!(empty.get_depth(&Cube::default()), None);
}

#[test]
fn update_cube_without_news_leaves_the_rest() {
    let mut store: Store<Move> = Store::new();
    let one = Cube::default().make_move(Move(Axis::X, 1, 0));
    store.insert_cube(&one, 2);
    store.update_cube(&one, 2);
    store.update_cube(&one, 7);
    assert_eq!(store.len(), 2);
    assert_eq!(store.get_depth(&one), Some(2));
    let other = Cube::default().make_move(Move(Axis::Y, 1, 0));
    store.update_cube(&other, 4);
    assert_eq!(store.len(), 3);
    assert_eq!(store.get_depth(&other), Some(4));
    // news of a shorter way goes round
    store.update_cube(&one, 1);
    assert_eq!(store.get_depth(&one), Some(1));
    for m in Move::all() {
        let near = one.clone().make_move(m);
        assert!(store.get_depth(&near).unwrap() <= 2);
    }
}

#[test]
fn a_depth_that_fell_in_a_merge_tells_the_cubes_next_to_it() {
    let one = Cube::default().make_move(Move(Axis::X, 1, 0));
    let beyond = one.clone().make_move(Move(Axis::Y, 1, 0));
    let mut store: Store<Move> = Store::new();
    store.insert_cube(&one, 5);
    store.insert_cube(&beyond, 9);
    let mut other: Store<Move> = Store::empty();
    other.insert_cube(&one, 1);
    store.extend_from_store(other);
    assert_eq!(store.get_depth(&one), Some(1));
    assert_eq!(store.get_depth(&beyond), Some(2));
    for m in Move::all() {
        let near = one.clone().make_move(m);
        assert!(store.get_depth(&near).unwrap() <= 2);
    }
    // a depth that did not fall tells nothing
    let mut plain: Store<Move> = Store::new();
    let mut same: Store<Move> = Store::empty();
    same.insert_cube(&one, 3);
    plain.extend_from_store(same);
    assert_eq!(plain.len(), 2);
}

#[test]
fn expand_searches_from_the_cubes_that_meet_all_criteria() {
    let mut store: Store<Move> = Store::new();
    let start: Cube<Position> = Cube::default();
    let one = TreeSearch { prev_move: None, current_depth: 0, search_depth: 1 };
    store.expand(&one, no_criteria());
    assert_eq!(store.len(), 46);
    // a criterion that no cube meets: nothing is searched
    let none: Vec<Box<dyn Fn(&Cube<Position>, u8) -> bool>> = vec![Box::new(|_, _| false)];
    store.expand(&one, none);
    assert_eq!(store.len(), 46);
    // the cubes at depth 0 that are the solved cube: one search, which
    // meets nothing new
    let home: Vec<Box<dyn Fn(&Cube<Position>, u8) -> bool>> =
        vec![Box::new(|_, depth| depth == 0), Box::new(|cube, _| *cube == Cube::default())];
    store.expand(&one, home);
    assert_eq!(store.len(), 46);
    // one cube at depth 1 alone: the 45 cubes next to it, of which the
    // 14 about its axis and the solved cube are known
    let picked = start.clone().make_move(Move(Axis::X, 1, 0));
    let only = picked.clone();
    let single: Vec<Box<dyn Fn(&Cube<Position>, u8) -> bool>> =
        vec![Box::new(|_, depth| depth == 1), Box::new(move |cube, _| *cube == only)];
    store.expand(&one, single);
    assert_eq!(store.len(), 46 + 30);
    let two = picked.clone().make_move(Move(Axis::Y, 1, 0));
    assert_eq!(store.get_depth(&two), Some(1));
    let other = start.clone().make_move(Move(Axis::Y, 1, 0)).make_move(Move(Axis::Z, 1, 0));
    assert_eq!(store.get_depth(&other), None);
}
