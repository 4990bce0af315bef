//! Verified solvers for a set of small daily text puzzles.
//!
//! Each `day*` module is an independent pipeline: split a text input into
//! lines, parse each line against that day's grammar, and fold the parsed
//! records into one or two scalar answers.  Malformed input never panics:
//! every solver returns a `Result` whose error case is pinned down by its
//! contract, so a driver can abort with a message exactly where the
//! original fail-fast policy demands it.

#![verifier::loop_isolation(false)]

pub mod day1;
pub mod day2;
pub mod day3;
pub mod day4;
pub mod day5;
pub mod day6;
pub mod day7;
pub mod day8;
pub mod day9;
pub mod errors;
pub mod text;
