//! End-to-end tests of the search engine on small puzzles.

use gods_algorithm::puzzle::{PuzzleDef, PuzzleMove, Transformation};
use gods_algorithm::GodsAlgorithmSearch;

fn make_move(name: &str, forward: Vec<usize>, inverse: Vec<usize>) -> PuzzleMove {
    PuzzleMove {
        name: name.to_owned(),
        transformation: Transformation { table: forward },
        inverse_transformation: Transformation { table: inverse },
    }
}

/// A 4-cycle under a single move: 0 -> 1 -> 2 -> 3 -> 0.
fn four_cycle() -> PuzzleDef {
    let m = make_move("m", vec![1, 2, 3, 0], vec![3, 0, 1, 2]);
    PuzzleDef::try_new(4, 0, vec![m]).unwrap()
}

/// Two commuting moves of order 2 (the Klein four-group) on states 0..4,
/// reading the state as a pair of bits.
fn klein_four() -> PuzzleDef {
    let a = make_move("a", vec![1, 0, 3, 2], vec![1, 0, 3, 2]);
    let b = make_move("b", vec![2, 3, 0, 1], vec![2, 3, 0, 1]);
    PuzzleDef::try_new(4, 0, vec![a, b]).unwrap()
}

#[test]
fn four_cycle_distance_table() {
    let puzzle = four_cycle();
    let mut search =
        GodsAlgorithmSearch::try_new(puzzle, None, vec!["m".to_owned()]).unwrap();
    search.fill();
    // Expansion applies the inverse transformation: 0 -> 3 -> 2 -> 1.
    assert_eq!(search.table.depth_of(0), Some(0));
    assert_eq!(search.table.depth_of(3), Some(1));
    assert_eq!(search.table.depth_of(2), Some(2));
    assert_eq!(search.table.depth_of(1), Some(3));
    assert_eq!(search.num_patterns_total, 4);
    assert_eq!(search.table.len(), 4);
    assert_eq!(search.max_depth(), 3);
    assert_eq!(search.depth_counts, vec![1, 1, 1, 1, 0]);
    assert!(search.table.completed());
}

#[test]
fn four_cycle_explicit_start_pattern() {
    let puzzle = four_cycle();
    let mut search =
        GodsAlgorithmSearch::try_new(puzzle, Some(2), vec!["m".to_owned()]).unwrap();
    search.fill();
    assert_eq!(search.table.depth_of(2), Some(0));
    assert_eq!(search.table.depth_of(1), Some(1));
    assert_eq!(search.table.depth_of(0), Some(2));
    assert_eq!(search.table.depth_of(3), Some(3));
    assert_eq!(search.max_depth(), 3);
    assert_eq!(search.num_patterns_total, 4);
}

#[test]
fn klein_four_depth_counts() {
    let puzzle = klein_four();
    let mut search =
        GodsAlgorithmSearch::try_new(puzzle, None, vec!["a".to_owned(), "b".to_owned()])
            .unwrap();
    search.fill();
    assert_eq!(search.table.depth_of(0), Some(0));
    assert_eq!(search.table.depth_of(1), Some(1));
    assert_eq!(search.table.depth_of(2), Some(1));
    assert_eq!(search.table.depth_of(3), Some(2));
    assert_eq!(search.depth_counts, vec![1, 2, 1, 0]);
    assert_eq!(search.max_depth(), 2);
    assert_eq!(search.num_patterns_total, 4);
}

#[test]
fn invalid_move_identifier_fails_construction() {
    let puzzle = four_cycle();
    let result = GodsAlgorithmSearch::try_new(puzzle, None, vec!["x".to_owned()]);
    match result {
        Ok(_) => panic!("construction must fail on an unresolved move"),
        Err(msg) => assert_eq!(msg, "x"),
    }
}

#[test]
fn one_good_move_then_bad_move_fails_construction() {
    let puzzle = klein_four();
    let result =
        GodsAlgorithmSearch::try_new(puzzle, None, vec!["a".to_owned(), "c".to_owned()]);
    assert_eq!(result.err().unwrap(), "c");
}

#[test]
fn fill_is_deterministic() {
    let mut first =
        GodsAlgorithmSearch::try_new(klein_four(), None, vec!["a".to_owned(), "b".to_owned()])
            .unwrap();
    let mut second =
        GodsAlgorithmSearch::try_new(klein_four(), None, vec!["a".to_owned(), "b".to_owned()])
            .unwrap();
    first.fill();
    second.fill();
    for pattern in 0..4 {
        assert_eq!(first.table.depth_of(pattern), second.table.depth_of(pattern));
    }
    assert_eq!(first.depth_counts, second.depth_counts);
    assert_eq!(first.num_patterns_total, second.num_patterns_total);
}

#[test]
fn stepwise_expansion_matches_fill() {
    let mut stepped =
        GodsAlgorithmSearch::try_new(klein_four(), None, vec!["a".to_owned(), "b".to_owned()])
            .unwrap();
    stepped.seed();
    let mut rounds = 0;
    while !stepped.table.completed() {
        stepped.expand_next_depth();
        rounds += 1;
    }
    assert_eq!(rounds, 3);
    let mut filled =
        GodsAlgorithmSearch::try_new(klein_four(), None, vec!["a".to_owned(), "b".to_owned()])
            .unwrap();
    filled.fill();
    for pattern in 0..4 {
        assert_eq!(stepped.table.depth_of(pattern), filled.table.depth_of(pattern));
    }
    assert_eq!(stepped.depth_counts, filled.depth_counts);
}

#[test]
fn empty_move_list_reaches_only_the_start() {
    let puzzle = four_cycle();
    let mut search = GodsAlgorithmSearch::try_new(puzzle, None, Vec::new()).unwrap();
    search.fill();
    assert_eq!(search.num_patterns_total, 1);
    assert_eq!(search.max_depth(), 0);
    assert_eq!(search.depth_counts, vec![1, 0]);
    assert_eq!(search.table.depth_of(0), Some(0));
    assert_eq!(search.table.depth_of(1), None);
}

#[test]
fn duplicate_move_names_resolve_to_the_first() {
    let first = make_move("m", vec![1, 0], vec![1, 0]);
    let second = make_move("m", vec![0, 1], vec![0, 1]);
    let puzzle = PuzzleDef::try_new(2, 0, vec![first, second]).unwrap();
    let resolved = puzzle.resolve(&"m".to_owned()).unwrap();
    assert_eq!(resolved.transformation.table, vec![1, 0]);
}

/// Ten commuting bit-flips on a 10-bit state space: 1024 reachable states,
/// one per subset of flipped bits, at depth = number of set bits.
#[test]
fn hypercube_counts_and_formatting() {
    let n: usize = 1 << 10;
    let mut moves = Vec::new();
    for bit in 0..10 {
        let mut table = Vec::with_capacity(n);
        for s in 0..n {
            table.push(s ^ (1 << bit));
        }
        let name = format!("f{}", bit);
        moves.push(make_move(&name, table.clone(), table));
    }
    let puzzle = PuzzleDef::try_new(n, 0, moves).unwrap();
    let move_names: Vec<String> = (0..10).map(|bit| format!("f{}", bit)).collect();
    let mut search = GodsAlgorithmSearch::try_new(puzzle, None, move_names).unwrap();
    search.fill();
    assert_eq!(search.num_patterns_total, 1024);
    assert_eq!(search.max_depth(), 10);
    // binomial coefficients: 1, 10, 45, 120, 210, 252, ...
    assert_eq!(
        search.depth_counts,
        vec![1, 10, 45, 120, 210, 252, 210, 120, 45, 10, 1, 0]
    );
    assert_eq!(search.formatted_total(), "1_024");
    let formatted = search.formatted_depth_counts();
    assert_eq!(formatted[2], "45");
    assert_eq!(formatted[5], "252");
}
