use ternary_robotics::{
    is_stopped, is_turning, majority, GridPos, PathPlanner, TernaryActuator, TernaryObstacle,
};

use TernaryActuator::{Forward, Reverse, Stop};

fn is_walk(planner: &PathPlanner, path: &[GridPos]) -> bool {
    !path.is_empty()
        && path.iter().all(|p| planner.get(*p) != TernaryObstacle::Blocked)
        && path.windows(2).all(|w| w[0].manhattan_to(&w[1]) == 1)
}

#[test]
fn value_round_trips_through_from_value() {
    for a in [Reverse, Stop, Forward] {
        assert_eq!(TernaryActuator::from_value(a.value()), Some(a));
    }
    for v in i8::MIN..=i8::MAX {
        match TernaryActuator::from_value(v) {
            Some(a) => assert_eq!(a.value(), v),
            None => assert!(v < -1 || v > 1),
        }
    }
    assert_eq!(TernaryActuator::from_value(0), Some(Stop));
    assert_eq!(TernaryActuator::from_value(1), Some(Forward));
    assert_eq!(TernaryActuator::from_value(-2), None);
}

#[test]
fn majority_of_sensor_readings() {
    // readings 8.0, 9.0, 2.0 on a 0..10 sensor: Forward, Forward, Reverse
    assert_eq!(majority(&[Forward, Forward, Reverse]), Forward);
    assert_eq!(majority(&[Stop, Stop, Forward]), Stop);
    assert_eq!(majority(&[Reverse, Stop, Stop, Reverse, Reverse]), Reverse);
}

#[test]
fn majority_ties() {
    assert_eq!(majority(&[]), Reverse);
    assert_eq!(majority(&[Reverse, Forward]), Reverse);
    assert_eq!(majority(&[Reverse, Stop]), Reverse);
    assert_eq!(majority(&[Forward, Stop]), Forward);
    assert_eq!(majority(&[Reverse, Stop, Forward]), Reverse);
}

#[test]
fn majority_unanimous() {
    assert_eq!(majority(&[Stop]), Stop);
    assert_eq!(majority(&[Forward; 4]), Forward);
    assert_eq!(majority(&[Stop; 7]), Stop);
}

#[test]
fn manhattan_is_a_metric() {
    let a = GridPos::new(-2, 5);
    let b = GridPos::new(3, -4);
    let c = GridPos::new(1, 1);
    assert_eq!(a.manhattan_to(&b), 14);
    assert_eq!(a.manhattan_to(&b), b.manhattan_to(&a));
    assert_eq!(a.manhattan_to(&a), 0);
    assert!(a.manhattan_to(&b) <= a.manhattan_to(&c) + c.manhattan_to(&b));
}

#[test]
fn grid_pos_new_keeps_coordinates() {
    let p = GridPos::new(-3, 9);
    assert_eq!(p.x, -3);
    assert_eq!(p.y, 9);
}

#[test]
fn new_planner_is_free_and_off_grid_is_blocked() {
    let planner = PathPlanner::new(4, 2);
    assert_eq!(planner.width, 4);
    assert_eq!(planner.height, 2);
    assert_eq!(planner.get(GridPos::new(3, 1)), TernaryObstacle::Free);
    assert_eq!(planner.get(GridPos::new(4, 1)), TernaryObstacle::Blocked);
    assert_eq!(planner.get(GridPos::new(0, 2)), TernaryObstacle::Blocked);
    assert_eq!(planner.get(GridPos::new(-1, 0)), TernaryObstacle::Blocked);
    assert_eq!(planner.count_obstacles(), (0, 8, 0));
}

#[test]
fn get_reads_what_set_obstacle_wrote() {
    let mut planner = PathPlanner::new(3, 3);
    planner.set_obstacle(GridPos::new(2, 0), TernaryObstacle::Unknown);
    assert_eq!(planner.get(GridPos::new(2, 0)), TernaryObstacle::Unknown);
    assert_eq!(planner.get(GridPos::new(0, 2)), TernaryObstacle::Free);
    planner.set_obstacle(GridPos::new(2, 0), TernaryObstacle::Blocked);
    assert_eq!(planner.get(GridPos::new(2, 0)), TernaryObstacle::Blocked);
    assert_eq!(planner.count_obstacles(), (0, 8, 1));
}

#[test]
fn set_obstacle_off_grid_changes_nothing() {
    let mut planner = PathPlanner::new(2, 2);
    planner.set_obstacle(GridPos::new(2, 0), TernaryObstacle::Blocked);
    planner.set_obstacle(GridPos::new(0, -1), TernaryObstacle::Unknown);
    assert_eq!(planner.count_obstacles(), (0, 4, 0));
}

#[test]
fn counts_cover_the_grid() {
    let mut planner = PathPlanner::new(5, 4);
    planner.set_obstacle(GridPos::new(0, 0), TernaryObstacle::Blocked);
    planner.set_obstacle(GridPos::new(4, 3), TernaryObstacle::Unknown);
    planner.set_obstacle(GridPos::new(2, 1), TernaryObstacle::Unknown);
    let (u, f, b) = planner.count_obstacles();
    assert_eq!((u, f, b), (2, 17, 1));
    assert_eq!(u + f + b, 20);
}

#[test]
fn find_path_goes_around_a_wall() {
    // a wall at x = 2 for y = 0..=3 leaves only y = 4 open
    let mut planner = PathPlanner::new(5, 5);
    for y in 0..4 {
        planner.set_obstacle(GridPos::new(2, y), TernaryObstacle::Blocked);
    }
    let start = GridPos::new(0, 0);
    let goal = GridPos::new(4, 0);
    let path = planner.find_path(start, goal).unwrap();
    assert_eq!(path.len(), 13);
    assert_eq!(path[0], start);
    assert_eq!(*path.last().unwrap(), goal);
    assert!(is_walk(&planner, &path));
    assert!(path.len() as i32 >= start.manhattan_to(&goal) + 1);
}

#[test]
fn find_path_exact_route_in_a_corridor() {
    let mut planner = PathPlanner::new(3, 2);
    planner.set_obstacle(GridPos::new(1, 0), TernaryObstacle::Blocked);
    let path = planner.find_path(GridPos::new(0, 0), GridPos::new(2, 0)).unwrap();
    assert_eq!(
        path,
        vec![
            GridPos::new(0, 0),
            GridPos::new(0, 1),
            GridPos::new(1, 1),
            GridPos::new(2, 1),
            GridPos::new(2, 0)
        ]
    );
}

#[test]
fn find_path_none_when_goal_enclosed() {
    let mut planner = PathPlanner::new(5, 5);
    planner.set_obstacle(GridPos::new(3, 4), TernaryObstacle::Blocked);
    planner.set_obstacle(GridPos::new(4, 3), TernaryObstacle::Blocked);
    assert!(planner.find_path(GridPos::new(0, 0), GridPos::new(4, 4)).is_none());
}

#[test]
fn find_path_none_when_goal_blocked_or_off_grid() {
    let mut planner = PathPlanner::new(3, 3);
    planner.set_obstacle(GridPos::new(2, 2), TernaryObstacle::Blocked);
    assert!(planner.find_path(GridPos::new(0, 0), GridPos::new(2, 2)).is_none());
    assert!(planner.find_path(GridPos::new(0, 0), GridPos::new(3, 0)).is_none());
    assert!(planner.find_path(GridPos::new(-1, 0), GridPos::new(1, 1)).is_none());
}

#[test]
fn find_path_to_start_is_start() {
    let planner = PathPlanner::new(3, 3);
    let p = GridPos::new(1, 2);
    assert_eq!(planner.find_path(p, p), Some(vec![p]));
}

#[test]
fn find_path_crosses_unknown_cells() {
    // a column of Unknown cells does not stop the planner, and costs nothing extra
    let mut planner = PathPlanner::new(3, 3);
    for y in 0..3 {
        planner.set_obstacle(GridPos::new(1, y), TernaryObstacle::Unknown);
    }
    let path = planner.find_path(GridPos::new(0, 1), GridPos::new(2, 1)).unwrap();
    assert_eq!(path.len(), 3);
    assert_eq!(path[1], GridPos::new(1, 1));
}

#[test]
fn find_path_on_empty_grid_is_none() {
    let planner = PathPlanner::new(0, 0);
    assert!(planner.find_path(GridPos::new(0, 0), GridPos::new(0, 0)).is_none());
}

#[test]
fn drive_turns_when_wheels_differ() {
    assert!(!is_turning(Forward, Forward));
    assert!(is_turning(Reverse, Forward));
    assert!(is_turning(Stop, Forward));
    assert!(!is_turning(Stop, Stop));
}

#[test]
fn drive_stopped_only_when_both_stop() {
    assert!(is_stopped(Stop, Stop));
    assert!(!is_stopped(Forward, Forward));
    assert!(!is_stopped(Stop, Reverse));
    assert!(!is_stopped(Forward, Stop));
}

#[test]
fn find_path_prefers_y_steps_among_shortest() {
    // on a free 2x2 grid both routes are shortest; the y + 1 step is tried first
    let planner = PathPlanner::new(2, 2);
    let path = planner.find_path(GridPos::new(0, 0), GridPos::new(1, 1)).unwrap();
    assert_eq!(path, vec![GridPos::new(0, 0), GridPos::new(0, 1), GridPos::new(1, 1)]);
    // going down in y is tried before going right in x
    let path = planner.find_path(GridPos::new(0, 1), GridPos::new(1, 0)).unwrap();
    assert_eq!(path, vec![GridPos::new(0, 1), GridPos::new(0, 0), GridPos::new(1, 0)]);
    // x + 1 before x - 1 only matters when both lead on; here x - 1 is the way
    let path = planner.find_path(GridPos::new(1, 1), GridPos::new(0, 0)).unwrap();
    assert_eq!(path, vec![GridPos::new(1, 1), GridPos::new(1, 0), GridPos::new(0, 0)]);
}

#[test]
fn open_grid_path_has_manhattan_length() {
    let planner = PathPlanner::new(6, 7);
    let s = GridPos::new(5, 0);
    let g = GridPos::new(1, 6);
    let path = planner.find_path(s, g).unwrap();
    assert_eq!(path.len() as i32, s.manhattan_to(&g) + 1);
}

#[test]
fn blocking_a_cell_never_shortens_a_path() {
    let mut planner = PathPlanner::new(4, 4);
    let s = GridPos::new(0, 0);
    let g = GridPos::new(2, 0);
    let before = planner.find_path(s, g).unwrap().len();
    assert_eq!(before, 3);
    for y in 0..3 {
        planner.set_obstacle(GridPos::new(1, y), TernaryObstacle::Blocked);
    }
    let after = planner.find_path(s, g).unwrap().len();
    assert!(after >= before);
    assert_eq!(after, 9);
}
