//! A small scripting virtual machine: a lexer for its source language, a
//! value model with a mark-and-sweep garbage-collected heap, and the state
//! machine that runs its instructions.

pub mod assoc;
pub mod chars;
pub mod convert;
pub mod functions;
pub mod garbage_collector;
pub mod instruction;
pub mod lexer;
pub mod object;
pub mod state;
