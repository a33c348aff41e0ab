//! An interpreter for an eight-symbol byte-tape language: a scanner, a
//! bracket-resolving parser and a tree-walking executor, each verified
//! against a mathematical model.
pub mod interp;
pub mod parser;
pub mod tape;
pub mod token;

pub use interp::{Machine, execute, run};
pub use parser::{Command, parse};
pub use tape::{RunError, TAPE_LEN, Tape};
pub use token::{Token, tokenize};
