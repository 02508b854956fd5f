//! What the engine's arithmetic is for, stated as relations between what it is
//! given and what it returns.
pub mod adjusting;
pub mod blending;
pub mod boxes;
pub mod brushes;
pub mod canvases;
pub mod checkers;
pub mod colors;
pub mod compositing;
pub mod constants;
pub mod distances;
pub mod edges;
pub mod equalities;
pub mod filling;
pub mod fingers;
pub mod gradients;
pub mod hues;
pub mod lines;
pub mod maps;
pub mod mattes;
pub mod numbers;
pub mod polygons;
pub mod scenes;
pub mod selections;
pub mod strokes;
