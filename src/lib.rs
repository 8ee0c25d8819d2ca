//! Compiles a two-player grid game into a quantified boolean formula whose truth says
//! whether Black has a forced win within a ply budget, and normalizes that formula into
//! prenex CNF in QDIMACS form for an outside QBF solver.
//!
//! - `qbf`: atoms, formulas, negation normal form, prenex form, Tseitin's encoding and
//!   bit vectors of atoms.
//! - `dimacs`: QDIMACS text and a readable notation of formulas.
//! - `bddl`: the game model (actions, conditions, problems).
//! - `lexer`: the tokens of the text form of domains and problems.
//! - `parser`: the text form of conditions.
//! - `solver_qbf`: the game compiler.
//! - `solver`: a brute-force search of the game, to check the compiler against.
//! - `tictac`: tic-tac-toe as a game of the model.

pub mod bddl;
pub mod dimacs;
pub mod lexer;
pub mod parser;
pub mod qbf;
pub mod solver;
pub mod solver_qbf;
pub mod tictac;
