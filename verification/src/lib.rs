pub mod env;
pub mod geom;
pub mod planner;
pub mod rng;
