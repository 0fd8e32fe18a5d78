//! A discrete-time, grid-based multi-phase material simulator.
//!
//! Each cell of a 2D grid holds a tile — an element (gas-, solid- or
//! liquid-like) with a saturation — and every tick the engine decides
//! where each cell's contents move, diffuses saturation toward local
//! window averages, and applies phase transitions.  The core is the
//! movement-resolution engine: a precomputed pairwise scorer ranks each
//! cell's candidate destinations, and an iterative conflict resolver
//! with a nearest-free-cell fallback turns all the rankings into a true
//! permutation of the grid, proven to be a bijection and to converge
//! within a bound given by the total number of listed preferences.
//!
//! All continuous quantities are fixed-point scalars (multiples of
//! `1/scalar::SCALE`), so every physical rule is exact integer
//! arithmetic with explicit clamping.

pub mod grid;
pub mod pageflip;
pub mod polynomial;
pub mod ranker;
pub mod rng;
pub mod scalar;
pub mod simulation;
