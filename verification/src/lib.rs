//! A solver for the dungeon puzzle on an 8x8 grid: given the monsters, the
//! treasures and the number of walls wanted in each row and column, it finds
//! every way to wall empty cells so that each monster has one exit, the open
//! cells are one region and each treasure has its room.
//!
//! - [`puzzle`]: the board and its bitboards.
//! - [`codec`]: the 26-byte record of a puzzle.
//! - [`oracle`]: the rules for a fully walled board.
//! - [`solve`]: the search, and [`solution`]: what holds of what it finds.
//! - [`screen`], [`matching`], [`tex`]: the rules by which the game's screen
//!   and files are read.
//! - [`bits`], [`endian`]: bit and byte arithmetic.
pub mod bits;
pub mod codec;
pub mod endian;
pub mod matching;
pub mod oracle;
pub mod puzzle;
pub mod screen;
pub mod solution;
pub mod solve;
pub mod tex;
