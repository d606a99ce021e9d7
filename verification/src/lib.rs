//! Search for a 3x3 magic square whose nine cells are distinct perfect
//! squares, following the cell patterns of the multimagie search paper.
//!
//! The library holds the arithmetic and the bookkeeping of the search:
//! the integer hash that keys every lookup table, the table of candidate
//! sums of two squares, the checks of the square patterns, and the
//! partnership graph of numbers that complete a magic sum.

pub mod completeness;
pub mod graph;
pub mod graph_v2;
pub mod hashing;
pub mod magic_sums;
pub mod matching;
pub mod patterns;
pub mod primes;
pub mod search;
pub mod shared_vec;

