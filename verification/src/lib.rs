//! A grid-based shortest-path search engine.
//!
//! A user marks start, end and obstacle cells on a rectangular grid; the
//! engine then runs an A*-style informed search one expansion at a time, so
//! that an outside render loop can draw a frame after every step.  The crate
//! holds the grid state machine ([`grid::GridModel`]), the per-cell search
//! records ([`search::SearchState`]), the priority frontier
//! ([`frontier::Frontier`]) and the step-wise engine ([`engine::Astar`]);
//! window creation, input polling and rasterized drawing are left to the
//! caller.

pub mod errors;
pub mod geom;
pub mod cost;
pub mod grid;
pub mod search;
pub mod grid_set;
pub mod frontier;
pub mod engine;
