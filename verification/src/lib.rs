//! In-memory storage engine of a raster image editor.
//!
//! - `matrix`: a dense grid with bounds-checked cell access.
//! - `document`: a canvas cut into tiles that clones share until one of them
//!   writes.
//! - `canvas`: a document with its history of snapshots: commit, undo, redo.
//! - `region`: what it means for cells to be connected, and what a fill makes
//!   of a grid.
//! - `fill`: the scanline fill, for every store of cells.
//! - `paint_methods`: fills on a document.
//! - `color`, `position`, `bounding_box`, `point_location`, `shapes`,
//!   `textures`, `regular`: the small types around them.

pub mod bounding_box;
pub mod canvas;
pub mod color;
pub mod document;
pub mod fill;
pub mod matrix;
pub mod paint_methods;
pub mod point_location;
pub mod position;
pub mod region;
pub mod regular;
pub mod shapes;
pub mod textures;
