//! The undoable commands.
pub mod props;
pub mod select;
pub mod canvas;
pub mod tiles;
pub mod pixels;
pub mod raster;
pub mod transform;
pub mod scraps;
pub mod adding;
pub mod extracting;
pub mod structure;
pub mod subtree;
pub mod batch;
pub mod repeating;
