pub mod config;
pub mod informed_rrtstar;
pub mod node;
pub mod rrt;
pub mod rrtstar;
pub mod tree;

pub use crate::planner::config::ConfigError;
pub use crate::planner::informed_rrtstar::InformedRRTStar;
pub use crate::planner::node::Node;
pub use crate::planner::rrt::AbstractRRT;
pub use crate::planner::rrt::RRT;
pub use crate::planner::rrtstar::RRTStar;
pub use crate::planner::tree::Tree;
