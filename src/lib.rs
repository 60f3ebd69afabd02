pub mod algorithm;
pub mod generator;
pub mod model;
pub mod moves;
pub mod serialize;
pub mod solver;
pub mod symmetry;
