pub mod registry;
pub mod solver;
