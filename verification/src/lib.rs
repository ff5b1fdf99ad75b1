//! Decodes a keyboard performance into a program for an eight-instruction tape
//! language, and runs such programs on a bounded tape machine.

pub mod interpreter;
pub mod keys;
pub mod midi;
pub mod parser;
