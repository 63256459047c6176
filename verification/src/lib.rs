//! Robotics control with ternary decisions: actuator commands, majority voting
//! over ternary readings, and breadth-first path planning on a grid whose cells
//! are free, blocked or unknown.

pub mod actuator;
pub mod bfs;
pub mod counting;
pub mod grid;
pub mod order;
pub mod planner;

pub use actuator::{is_stopped, is_turning, majority, TernaryActuator};
pub use grid::{GridPos, TernaryObstacle};
pub use planner::PathPlanner;
