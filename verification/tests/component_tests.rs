//! Unit tests of the puzzle model, the chunked frontier, and the table.

use gods_algorithm::bulk_queue::{BulkQueue, CHUNK_CAPACITY};
use gods_algorithm::puzzle::{PuzzleDef, PuzzleMove, Transformation};
use gods_algorithm::GodsAlgorithmTable;

fn make_move(name: &str, forward: Vec<usize>, inverse: Vec<usize>) -> PuzzleMove {
    PuzzleMove {
        name: name.to_owned(),
        transformation: Transformation { table: forward },
        inverse_transformation: Transformation { table: inverse },
    }
}

#[test]
fn puzzle_def_rejects_tables_that_are_not_inverse() {
    let bad = make_move("m", vec![1, 2, 3, 0], vec![1, 2, 3, 0]);
    assert!(PuzzleDef::try_new(4, 0, vec![bad]).is_err());
}

#[test]
fn puzzle_def_rejects_out_of_range_entries() {
    let bad = make_move("m", vec![1, 0, 9], vec![1, 0, 2]);
    assert!(PuzzleDef::try_new(3, 0, vec![bad]).is_err());
}

#[test]
fn puzzle_def_rejects_bad_default_pattern() {
    let m = make_move("m", vec![0, 1], vec![0, 1]);
    assert!(PuzzleDef::try_new(2, 2, vec![m]).is_err());
}

#[test]
fn puzzle_def_accepts_valid_definition() {
    let m = make_move("m", vec![1, 2, 0], vec![2, 0, 1]);
    let puzzle = PuzzleDef::try_new(3, 1, vec![m]).unwrap();
    assert_eq!(puzzle.pattern_count, 3);
    assert_eq!(puzzle.default_pattern, 1);
    assert_eq!(puzzle.moves.len(), 1);
}

#[test]
fn resolve_finds_first_match_and_reports_misses() {
    let a = make_move("a", vec![0, 1], vec![0, 1]);
    let b = make_move("b", vec![1, 0], vec![1, 0]);
    let puzzle = PuzzleDef::try_new(2, 0, vec![a, b]).unwrap();
    let hit = puzzle.resolve(&"b".to_owned()).unwrap();
    assert_eq!(hit.name, "b");
    assert_eq!(hit.transformation.table, vec![1, 0]);
    let miss = puzzle.resolve(&"z".to_owned()).err().unwrap();
    assert_eq!(miss.description_string(), "z");
}

#[test]
fn transformation_apply_reads_its_table() {
    let t = Transformation { table: vec![2, 0, 1] };
    assert_eq!(t.apply(0), 2);
    assert_eq!(t.apply(1), 0);
    assert_eq!(t.apply(2), 1);
}

#[test]
fn bulk_queue_keeps_insertion_order_in_fixed_chunks() {
    let mut q = BulkQueue::new(None);
    assert_eq!(q.size(), 0);
    assert_eq!(q.num_chunks(), 0);
    let total = CHUNK_CAPACITY + 500;
    for value in 0..total {
        q.push(value);
    }
    assert_eq!(q.size(), total);
    assert_eq!(q.num_chunks(), 2);
    assert_eq!(q.chunk(0).len(), CHUNK_CAPACITY);
    assert_eq!(q.chunk(1).len(), 500);
    assert_eq!(q.chunk(0)[0], 0);
    assert_eq!(q.chunk(0)[CHUNK_CAPACITY - 1], CHUNK_CAPACITY - 1);
    assert_eq!(q.chunk(1)[0], CHUNK_CAPACITY);
    assert_eq!(q.chunk(1)[499], total - 1);
}

#[test]
fn bulk_queue_seeded_and_taken() {
    let mut q = BulkQueue::new(Some(7));
    assert_eq!(q.size(), 1);
    assert_eq!(q.chunk(0)[0], 7);
    let taken = q.take();
    assert_eq!(taken.size(), 1);
    assert_eq!(taken.chunk(0)[0], 7);
    assert_eq!(q.size(), 0);
    assert_eq!(q.num_chunks(), 0);
}

#[test]
fn table_records_first_discovery_depths() {
    let mut table = GodsAlgorithmTable::new();
    assert!(!table.completed());
    assert!(!table.contains(5));
    assert_eq!(table.depth_of(5), None);
    assert_eq!(table.len(), 0);
    table.insert(5, 2);
    assert!(table.contains(5));
    assert_eq!(table.depth_of(5), Some(2));
    assert_eq!(table.len(), 1);
    table.insert(9, 3);
    assert_eq!(table.len(), 2);
    table.mark_completed();
    assert!(table.completed());
    assert_eq!(table.depth_of(5), Some(2));
}

#[test]
fn table_default_is_empty() {
    let table = GodsAlgorithmTable::default();
    assert!(!table.completed());
    assert_eq!(table.len(), 0);
}
