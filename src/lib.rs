//! Deterministic puzzle simulation and plan analysis for a grid game in which
//! a character repeats a programmed list of moves.

pub mod actions;
pub mod symmetry;
pub mod level;
pub mod player;
pub mod simulation;
pub mod solver;
pub mod step_laws;
pub mod maybe;
pub mod challenge;
pub mod pictogram;
