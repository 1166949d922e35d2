//! crushrs: the decisions of a fast explicit crash solver.

pub mod bytes;
pub mod command;
pub mod contact;
pub mod element;
pub mod headon;
pub mod indices;
pub mod input;
pub mod kernel;
pub mod kernel_simd;
pub mod lattice;
pub mod material;
pub mod mesh;
pub mod model;
pub mod names;
pub mod number;
pub mod output;
pub mod roundoff;
pub mod signal;
pub mod solver;
pub mod text;
pub mod tune;
pub mod vehicle;
