//! Exact-cover solving with dancing links, and a Sudoku front end built on it.
//!
//! The solver: `problem` holds the problem and what an exact cover is,
//! `algorithm` states what the search returns, on the problem alone, and
//! proves that this is an exact cover whenever there is one. `layout` and
//! `matrix` describe the arena of links, `builder` builds it, `ops` and
//! `cover` change it and undo the change, `search` drives the search, and
//! `refine` ties the state of the matrix to the search as stated. `unique`
//! shows that the links are a function of what is unlinked.
//!
//! Sudoku: `grid` is the grid and its text form, `encode` turns a grid into
//! an exact-cover problem, `decode` reads a cover back into the grid,
//! `sudoku` puts the pieces together, and `rules` proves that a grid that
//! can be completed comes back completed.

pub mod problem;
pub mod algorithm;
pub mod layout;
pub mod matrix;
pub mod ops;
pub mod cover;
pub mod builder;
pub mod search;
pub mod refine;
pub mod unique;
pub mod grid;
pub mod encode;
pub mod decode;
pub mod sudoku;
pub mod rules;
