//! Writing results: VTK, tables and animations.

pub mod gif;
pub mod history;
pub mod parquet;
pub mod vtk;
