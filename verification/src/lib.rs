//! Procedural maze images: a randomized spanning-tree maze builder over a
//! rectangular cell grid, and a renderer that maps the finished grid of
//! wall/passage flags onto an RGB raster at a configurable cell size, wall
//! thickness and padding.

pub mod builder;
pub mod filter;
pub mod generator;
pub mod grid;
pub mod position;
pub mod raster;
pub mod render;
