//! Core of a voxel scan viewer: a remote scanning agent surveys a cubic
//! region of a block world and reports it as a compact text message; this
//! library decodes such reports into a voxel grid, builds batched face
//! meshes for rendering, and answers ray picking queries.
//!
//! Rendering, input handling and the network transport are deliberately
//! outside: they feed this library plain values and consume plain values.

pub mod color;
pub mod objects;
pub mod picker;
pub mod protocol;
pub mod renderer;
