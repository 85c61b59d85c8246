//! A five-dice, thirteen-category dice game engine: a canonical multiset
//! model of a hand, exact enumeration of keep candidates and re-roll
//! outcomes, deterministic category scoring, and a one-ply expectation
//! heuristic that picks the best keep and the best category.

pub mod ai;
pub mod dice;
pub mod game;
pub mod human;
pub mod order;
pub mod player;
pub mod scorecard;
pub mod subsets;
pub mod tosses;
pub mod types;
