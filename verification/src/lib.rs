//! BlueRush simulation core: the voxel grid, the editor's undo history, the
//! flow-distance search and the discrete parts of the object physics.

pub mod flow;
pub mod grid;
pub mod levels;
pub mod objects;
pub mod persistence;
pub mod render;
pub mod simulation;
pub mod simulation3d;
pub mod undo;
