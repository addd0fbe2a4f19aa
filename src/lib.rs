//! Conway's Game of Life on a finite toroidal grid: the simulation engine,
//! the text format of initial states, the run configuration, and proofs about
//! two classic patterns.

pub mod board;
pub mod codec;
pub mod config;
pub mod patterns;

pub use board::{Board, Pos};
pub use codec::{parse_input_file, ParseError};
pub use config::Config;
