//! Rewrites a short random Rubik's-cube scramble as a different, at least as
//! long move sequence reaching the same position.
//!
//! The solver has two parts: pattern databases (dense byte tables holding the
//! exact number of face turns needed to solve a projected sub-state of the
//! cube, built by breadth-first search over a bijective encoding of the
//! projection) and an iterative-deepening A* search that uses the maximum of
//! several such tables as an admissible heuristic.

pub mod cube;
pub mod pdb;
pub mod render;
pub mod scramble;
pub mod solver;
