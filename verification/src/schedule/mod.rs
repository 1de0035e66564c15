pub mod preorder;
pub mod plan;
pub mod phase;
pub mod planner;
pub mod cell;
pub mod unsafe_cell;
pub mod ready;
pub mod executor;
pub mod system;
pub mod schedule;
