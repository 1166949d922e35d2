//! Reading models: mesh files and setup files.

pub mod config;
pub mod inp;
