//! Fractal rendering core: recurrence driving, sample patterns, chunked
//! accumulation grids, tone mapping and gradient coloring, all on exact
//! integer and fixed-point values.
pub mod chunks;
pub mod coloring;
pub mod error;
pub mod fractal;
pub mod gradient;
pub mod grid;
pub mod histogram;
pub mod sampling;
