//! Procedural generation of a three-dimensional maze level on a cubic lattice.
pub mod cleaning;
pub mod components;
pub mod draw;
pub mod graph;
pub mod lattice;
pub mod level;
pub mod maze;
pub mod shaping;
pub mod spanning;
pub mod walls;
