//! Sudoku candidates, houses and human-style solving strategies.

pub mod error;
pub mod index;
pub mod flags;
pub mod graph;
pub mod board;
pub mod highlight;
pub mod rules;
pub mod strategy;
pub mod browse;
