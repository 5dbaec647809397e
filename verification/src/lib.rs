//! Conway's Game of Life on a bounded grid that does not wrap.
//!
//! [`grid`] holds the mathematical model: a grid is a sequence of rows of
//! alive flags, and one generation is the function [`grid::step`].
//! [`world`] holds the executable engine, whose contracts are stated over
//! that model. [`driver`] computes what a terminal front end shows, and
//! [`input`] reads what an operator types. Printing, reading and sleeping
//! are left to the program that uses the library.

pub mod driver;
pub mod grid;
pub mod input;
pub mod world;
