//! Exhaustive distance tables for combinatorial puzzles ("God's algorithm").
//!
//! A puzzle is a finite set of patterns together with a finite generating set
//! of moves, each move acting on patterns as a permutation given by an
//! explicit table. The search engine runs a breadth-first search from a start
//! pattern and records, for every reachable pattern, the least number of
//! moves needed to reach it.

pub mod bulk_queue;
pub mod model;
pub mod puzzle;
pub mod report;
pub mod search;
pub mod table;

pub use bulk_queue::BulkQueue;
pub use search::CachedMoveInfo;
pub use search::GodsAlgorithmSearch;
pub use table::GodsAlgorithmTable;

pub use puzzle::PuzzleDef;
pub use puzzle::PuzzleMove;
pub use puzzle::Transformation;
