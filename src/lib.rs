//! Direction fields over a square grid with obstructions: for a source cell,
//! the shortest 4-connected distance of every reachable cell and the compass
//! direction that leads one step closer to the source.
pub mod cardinal;
pub mod grid;
pub mod reach;
pub mod search;
pub mod field;
pub mod fanout;
pub mod laws;
pub mod render;
