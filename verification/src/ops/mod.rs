//! High-level document operations.
pub mod layer_ops;
pub mod merge;
pub mod extract;
pub mod flip;
pub mod mask;
pub mod region;
pub mod magic_wand;
pub mod bucket;
pub mod gradient;
pub mod magnetic;
pub mod grid;
pub mod matte_math;
pub mod matte_key;
pub mod matte;
pub mod finger_ops;
