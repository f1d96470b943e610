pub mod board;
pub mod cell;
pub mod command;
pub mod flood;
pub mod grid;
pub mod laws;
mod random;

pub use board::{Board, BoardError};
pub use cell::Cell;
pub use command::{parse_command, Action, Command, InputError};
