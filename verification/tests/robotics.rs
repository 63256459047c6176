use ternary_robotics::{GridPos, PathPlanner, TernaryActuator, TernaryObstacle};

#[test]
fn test_actuator_values() {
    assert_eq!(TernaryActuator::Reverse.value(), -1);
    assert_eq!(TernaryActuator::Stop.value(), 0);
    assert_eq!(TernaryActuator::Forward.value(), 1);
}

#[test]
fn test_actuator_from_value() {
    assert_eq!(TernaryActuator::from_value(-1), Some(TernaryActuator::Reverse));
    assert_eq!(TernaryActuator::from_value(2), None);
}

#[test]
fn test_grid_pos_manhattan() {
    let a = GridPos::new(0, 0);
    let b = GridPos::new(3, 4);
    assert_eq!(a.manhattan_to(&b), 7);
}

#[test]
fn test_path_planner_straight() {
    let planner = PathPlanner::new(10, 10);
    let start = GridPos::new(0, 0);
    let goal = GridPos::new(0, 5);
    let path = planner.find_path(start, goal);
    assert!(path.is_some());
    let path = path.unwrap();
    assert_eq!(path.len(), 6); // 5 steps + start
}

#[test]
fn test_path_planner_blocked() {
    let mut planner = PathPlanner::new(5, 5);
    planner.set_obstacle(GridPos::new(0, 0), TernaryObstacle::Blocked);
    let path = planner.find_path(GridPos::new(0, 0), GridPos::new(4, 4));
    assert!(path.is_none());
}

#[test]
fn test_path_planner_obstacle_count() {
    let mut planner = PathPlanner::new(3, 3);
    planner.set_obstacle(GridPos::new(1, 1), TernaryObstacle::Blocked);
    planner.set_obstacle(GridPos::new(2, 2), TernaryObstacle::Unknown);
    let (unknown, free, blocked) = planner.count_obstacles();
    assert_eq!(unknown, 1);
    assert_eq!(blocked, 1);
    assert_eq!(free, 7);
}
