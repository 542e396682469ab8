//! A compiler and an interpreter for a two-dimensional dialect of brainfuck,
//! in which control flows over a grid of characters and may turn.

pub mod grid;
pub mod text;
pub mod nodes;
pub mod compiler;
pub mod interpreter;
