//! Raster-to-vector outline tracing for bitmap glyph cells.
//!
//! Given a rectangular grid of non-negative weights (a cell is foreground
//! when its weight is strictly positive), the library groups foreground
//! cells into 4-connected regions, extracts each region's boundary as a set
//! of unit lattice edges, stitches those edges into closed polygonal loops,
//! and resolves the winding direction of every loop so that outer contours
//! have negative signed area and holes have positive signed area.

pub mod edge;
pub mod glyph;
pub mod grid;
pub mod paths;
pub mod union_find;
pub mod winding;
