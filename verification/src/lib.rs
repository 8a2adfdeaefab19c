//! Benchmark-runner core: escalating timeout budgets, command-template
//! interpolation, and the deduplicating schedule that skips inputs already
//! solved in a run. The surrounding process (argument parsing, the database
//! connection, spawning the shell) lives outside this crate; everything here
//! is pure logic with verified contracts.

pub mod budget;
pub mod command;
pub mod scheduler;
pub mod store;
