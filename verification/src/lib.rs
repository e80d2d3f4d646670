//! Solvers for a set of text puzzles, one module per puzzle, each with its
//! parser on bytes and its rules stated as contracts.

pub mod text;
pub mod hill;
pub mod seats;
pub mod rps;
pub mod rucksack;
pub mod cpu;
pub mod headtail;
pub mod monkey;
pub mod sand;
pub mod signal;
pub mod crates;
pub mod calories;
pub mod packet;
pub mod trees;
pub mod fscmd;
