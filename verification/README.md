# ternary_robotics

Robotics control with ternary decisions, verified with Verus.

- `src/actuator.rs` — `TernaryActuator` (Reverse/Stop/Forward as -1/0/+1),
  `majority`, the vote of a sensor array's ternary readings, and the drive's
  `is_turning` / `is_stopped` rules.
- `src/grid.rs` — `GridPos`, Manhattan distance, `TernaryObstacle`.
- `src/planner.rs` — `PathPlanner`: a width × height grid of obstacles with
  reads, writes and counts.
- `src/bfs.rs` — `PathPlanner::find_path`: breadth-first search, proved to return
  the first walk around Blocked cells in search order (shortest, then by the
  rank of its steps: y + 1, y - 1, x + 1, x - 1), or `None` exactly when none
  exists.
- `src/order.rs` — that search order on paths.
- `src/counting.rs` — counting lemmas shared by the above.
- `app/lib.rs` — the floating-point parts (speed ramps, differential drive
  kinematics, analogue sensors, odometry), which call into the library.
