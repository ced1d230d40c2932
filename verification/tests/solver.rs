//! End-to-end solver, puzzle and scoring scenarios.

use icfpc::geom::Point;
use icfpc::map::Polygon;
use icfpc::models::Command;
use icfpc::parse::{read_puzzle, read_task};
use icfpc::puzzle::solve_puzzle;
use icfpc::score::score_small;
use icfpc::solve::{solve_small, solve_small_state, solve_small_while};

fn interior(p: &Polygon) -> Vec<(i32, i32)> {
    let mut v: Vec<(i32, i32)> = p
        .enumerate_points()
        .expect("polygon should enumerate")
        .iter()
        .map(|q| (q.x, q.y))
        .collect();
    v.sort();
    v.dedup();
    v
}

#[test]
fn one_by_one_room() {
    let task = read_task("(0,0),(1,0),(1,1),(0,1)#(0,0)##").unwrap();
    let st = solve_small_state(&task).expect("the room is coverable");
    assert_eq!(st.remaining_pass, 0);
    let c = st.commands();
    assert!(c.len() <= 1);
}

#[test]
fn two_by_one_corridor() {
    let task = read_task("(0,0),(2,0),(2,1),(0,1)#(0,0)##").unwrap();
    let st = solve_small_state(&task).expect("the corridor is coverable");
    assert_eq!(st.remaining_pass, 0);
    assert!(st.commands().len() <= 1);
}

#[test]
fn three_by_three_with_cloning() {
    let task = read_task("(0,0),(3,0),(3,3),(0,3)#(1,1)##C(2,2);X(0,0)").unwrap();
    let st = solve_small_state(&task).expect("the room is coverable");
    assert_eq!(st.remaining_pass, 0);
    let c = st.commands();
    assert!(c.len() <= 12, "took {} turns", c.len());
    // The solver fetches the Cloning booster and heads for the Spawn cell;
    // whether the clone is still worth emitting depends on how much the
    // walk itself covered, but the robot count always exceeds the Cloning
    // commands by exactly one.
    let clonings = c.0.iter().flatten().filter(|x| matches!(x, Command::Cloning)).count();
    assert_eq!(c.0.len(), clonings + 1);
    assert!(c.0.len() <= 2);
}

#[test]
fn l_shaped_room() {
    let task = read_task("(0,0),(2,0),(2,1),(3,1),(3,3),(0,3)#(0,0)##").unwrap();
    assert_eq!(interior(&task.map).len(), 8);
    let st = solve_small_state(&task).expect("the room is coverable");
    assert_eq!(st.remaining_pass, 0);
    assert!(st.commands().len() <= 12);
}

#[test]
fn solve_small_emits_replayable_text() {
    let task = read_task("(0,0),(3,0),(3,3),(0,3)#(0,0)##").unwrap();
    let c = solve_small(&task).expect("the room is coverable");
    let text = c.to_text();
    let back = icfpc::parse::read_commands(&text).expect("emitted solution parses");
    assert_eq!(back, c);
}

#[test]
fn solve_small_while_keeps_a_solution() {
    let task = read_task("(0,0),(2,0),(2,2),(0,2)#(0,0)##").unwrap();
    let c = solve_small_while(&task, 50).expect("the room is coverable");
    assert!(c.len() <= 6);
}

#[test]
fn puzzle_smallest() {
    let p = read_puzzle("1,1,5,4,20,0,0,0,0,0,0#(1,1)#(3,3)").unwrap();
    let t = solve_puzzle(&p).expect("the puzzle is feasible");
    assert_eq!(t.width, 4);
    assert_eq!(t.height, 4);
    assert!(t.map.len() >= 4 && t.map.len() <= 20);
    let cells = interior(&t.map);
    assert!(cells.len() >= 3);
    assert!(cells.contains(&(1, 1)));
    assert!(!cells.contains(&(3, 3)));
    assert!(t.obstacles.is_empty());
    // The synthesized task itself is solvable.
    let st = solve_small_state(&t).expect("the synthesized task is coverable");
    assert_eq!(st.remaining_pass, 0);
}

#[test]
fn puzzle_with_boosters() {
    let p = read_puzzle("1,1,9,4,40,1,1,0,0,1,1#(1,1),(4,4)#(7,7)").unwrap();
    let t = solve_puzzle(&p).expect("the puzzle is feasible");
    assert_eq!(t.boosters.len(), 4);
    let cells = interior(&t.map);
    assert!(cells.contains(&(1, 1)) && cells.contains(&(4, 4)));
    assert!(!cells.contains(&(7, 7)));
}

#[test]
fn puzzle_infeasible_rows() {
    // The single include and the excludes share row 1, and the excludes
    // fence the include's row segment off from holding every include.
    let p = read_puzzle("1,1,4,4,20,0,0,0,0,0,0#(0,1),(2,1)#(1,1)").unwrap();
    assert!(solve_puzzle(&p).is_none());
}

#[test]
fn score_of_known_run() {
    let task = read_task("(0,0),(3,0),(3,3),(0,3)#(0,0)##").unwrap();
    let c = icfpc::parse::read_commands("WWDDS").unwrap();
    let s = score_small(&task, &c).expect("the task is measurable");
    assert_eq!(s.width, 3);
    assert_eq!(s.height, 3);
    assert_eq!(s.remaining, 9);
    assert_eq!(s.best_estimated, 9 * 24 / 100);
    assert_eq!(s.team_time, 5);
    // The full score uses floating point and so lives with the caller:
    // 1000 * log2(9) * (2 / 5).
    let score = 1000.0 * ((s.width * s.height) as f64).log2()
        * (s.best_estimated as f64 / s.team_time as f64);
    assert!((score - 1267.97).abs() < 1.0, "score {}", score);
}

#[test]
fn score_zero_when_nothing_remains() {
    // A degenerate task whose room is fully carved out by an obstacle.
    let task = read_task("(0,0),(2,0),(2,2),(0,2)#(0,0)#(0,0),(2,0),(2,2),(0,2)#").unwrap();
    let c = icfpc::parse::read_commands("Z").unwrap();
    let s = score_small(&task, &c).unwrap();
    assert_eq!(s.remaining, 0);
    assert_eq!(s.best_estimated, 0);
}

#[test]
fn solver_with_obstacle() {
    let task =
        read_task("(0,0),(4,0),(4,4),(0,4)#(0,0)#(1,1),(3,1),(3,3),(1,3)#").unwrap();
    assert_eq!(interior(&task.map).len(), 16);
    let st = solve_small_state(&task).expect("the ring is coverable");
    assert_eq!(st.remaining_pass, 0);
}

#[test]
fn manipulator_initial_offsets() {
    // Covering a 2x2 room from a corner: the manipulator spans the
    // neighbouring column, so the run is short.
    let task = read_task("(0,0),(2,0),(2,2),(0,2)#(0,0)##").unwrap();
    let st = solve_small_state(&task).unwrap();
    assert_eq!(st.remaining_pass, 0);
    assert!(st.commands().len() <= 4);
    assert!(st.robots[0].bodies_diff.contains(&Point { x: 0, y: 0 }));
}
