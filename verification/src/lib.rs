//! Solvers for a series of small text puzzles, each read from a block of
//! text and answered with a number or a short string, together with the 2D
//! grid and coordinate helpers they share. Every solver is total: malformed
//! input, a rule that cannot go on, or a value past `usize` is answered with
//! `None`, never a fault.

pub mod grid;
pub mod parse;
pub mod position;
pub mod quest01;
pub mod quest02;
pub mod quest03;
pub mod quest04;
pub mod quest05;
pub mod quest06;
pub mod quest07;
pub mod quest08;
pub mod quest09;
pub mod text;
