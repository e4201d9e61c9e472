//! Reading a solved field.
use vi_lib::action::Action;
use vi_lib::params::{MAX_COST, PROB_BASE};
use vi_lib::planner::{
    densify, find_plannable_start, heading_of, in_map_area, optimal_action_at, CompactPolicy, PolicyView,
    PathPose, RamSink, RolloutStatus, RolloutStep, RolloutTrace, REVISIT_LIMIT,
};
use vi_lib::qmdp::{asks_action, qmdp_decide, Hypothesis, QmdpDecision};
use vi_lib::solvers::compact::solve_compact_mapped;
use vi_lib::solvers::frontier2d::frontier2d_solve_observed;
use vi_lib::solvers::frontier3d::frontier3d_solve_observed;
use vi_lib::solvers::observe::NullObserver;
use vi_lib::state::State;
use vi_lib::transition::{compute_theta_transitions, Motion};
use vi_lib::value_iterator::{action_cost_raw, value_iteration_raw, ValueIterator};

/// Cell width of the test maps, in metres.
const RES: f64 = 0.05;

/// A movement: metres to the front, degrees to the left.
type Step = (&'static str, f64, f64, i32);

/// The usual movements.
#[allow(dead_code)]
const STEPS: [Step; 6] = [
    ("forward", 0.3, 0.0, 0),
    ("back", -0.2, 0.0, 1),
    ("right", 0.0, -20.0, 2),
    ("rightfw", 0.2, -20.0, 3),
    ("left", 0.0, 20.0, 4),
    ("leftfw", 0.2, 20.0, 5),
];

/// Movements of one cell at most.
#[allow(dead_code)]
const SMALL_STEPS: [Step; 6] = [
    ("fw", 0.05, 0.0, 0),
    ("back", -0.05, 0.0, 1),
    ("right", 0.0, -30.0, 2),
    ("rightfw", 0.05, -30.0, 3),
    ("left", 0.0, 30.0, 4),
    ("leftfw", 0.05, 30.0, 5),
];

fn motion(fw: f64, rot: f64, it: i32, res: f64, t_res: f64) -> Motion {
    let moves = (0..64)
        .map(|k| {
            let deg = (it as f64 + (k as f64 + 0.5) / 64.0) * t_res;
            let a = deg.to_radians();
            ((fw * a.cos() * 1e9).round() as i64, (fw * a.sin() * 1e9).round() as i64)
        })
        .collect();
    Motion {
        moves,
        rot: (rot * 1e6).round() as i64,
        it,
        xy_res: (res * 1e9).round() as i64,
        t_res: (t_res * 1e6).round() as i64,
    }
}

fn action(step: &Step, nt: i32) -> Action {
    let mut a = Action::new(
        step.0,
        (step.1 * 1e9).round() as i64,
        (step.2 * 1e6).round() as i64,
        step.3,
    );
    let t_res = (360 / nt) as f64;
    for it in 0..nt {
        a.state_transitions.push(compute_theta_transitions(&motion(step.1, step.2, it, RES, t_res)));
    }
    a
}

/// A map with a margin of `margin` metres around obstacles.
fn make_map(w: i32, h: i32, occ: &[i8], steps: &[Step], nt: i32, margin: f64) -> ValueIterator {
    let m = (margin / RES).ceil() as i32;
    let mut states = Vec::new();
    for y in 0..h {
        for x in 0..w {
            let free = occ[(y * w + x) as usize] == 0;
            let mut near = false;
            for v in (y - m).max(0)..=(y + m).min(h - 1) {
                for u in (x - m).max(0)..=(x + m).min(w - 1) {
                    near |= occ[(v * w + u) as usize] != 0;
                }
            }
            let penalty = if near { 30 * PROB_BASE } else { PROB_BASE };
            for t in 0..nt {
                states.push(State::new(x, y, t, free, penalty));
            }
        }
    }
    ValueIterator {
        states,
        actions: steps.iter().map(|s| action(s, nt)).collect(),
        cell_num_x: w,
        cell_num_y: h,
        cell_num_t: nt,
    }
}

/// Marks the states whose cell lies within `radius` metres of a goal and whose heading is
/// within `margin` degrees of `deg`.
#[allow(dead_code)]
fn set_goals(vi: &mut ValueIterator, goals: &[(f64, f64)], deg: i32, radius: f64, margin: i32) {
    let t_res = 360 / vi.cell_num_t;
    for s in vi.states.iter_mut() {
        let (t0, t1) = (s.it * t_res, (s.it + 1) * t_res);
        let other = if deg > 180 { deg - 360 } else { deg + 360 };
        let heading = [deg, other].iter().any(|g| g - margin <= t0 && t1 <= g + margin);
        let place = goals.iter().any(|g| {
            let (x0, y0) = (s.ix as f64 * RES, s.iy as f64 * RES);
            let (x1, y1) = (x0 + RES, y0 + RES);
            (x0 - g.0).powi(2) + (y0 - g.1).powi(2) < radius * radius
                && (x1 - g.0).powi(2) + (y1 - g.1).powi(2) < radius * radius
        });
        s.final_state = s.free && heading && place;
        s.total_cost = if s.final_state { 0 } else { MAX_COST };
        s.optimal_action = None;
        s.local_penalty = 0;
    }
}

/// Sweeps a field until nothing moves any more.
#[allow(dead_code)]
fn run_reference_to_fixed_point(vi: &mut ValueIterator) {
    let (nx, ny, nt) = (vi.cell_num_x, vi.cell_num_y, vi.cell_num_t);
    for _ in 0..100_000 {
        let mut moved = false;
        for i in 0..vi.states.len() {
            moved |= value_iteration_raw(&mut vi.states, &vi.actions, i, nx, ny, nt) > 0;
        }
        if !moved {
            return;
        }
    }
    panic!("the field does not settle");
}

const NT: i32 = 60;

/// Obstacles that a step of 0.3 m does not jump over.
const WALL_THICK: i32 = 8;

fn unsolved(size: i32, data: &[i8], goals: &[(f64, f64)]) -> ValueIterator {
    let mut vi = make_map(size, size, data, &STEPS, NT, 0.1);
    set_goals(&mut vi, goals, 0, 0.2, 180);
    vi
}

fn solved_vi(size: i32, data: &[i8], goal: (f64, f64)) -> ValueIterator {
    let mut vi = unsolved(size, data, &[goal]);
    assert!(frontier3d_solve_observed(&mut vi, 100_000, &mut NullObserver).converged);
    vi
}

fn empty_map(size: i32) -> Vec<i8> {
    vec![0i8; (size * size) as usize]
}

/// A thick wall in the middle that is open at the top only.
fn walled_map(size: i32) -> Vec<i8> {
    let mut data = empty_map(size);
    for y in 0..(size - 8) {
        for dx in 0..WALL_THICK {
            data[(y * size + size / 2 + dx) as usize] = 100;
        }
    }
    data
}

fn pose_to_cell(x: f64, y: f64, yaw: f64) -> (i32, i32, i32) {
    let t = yaw.to_degrees() as i32;
    ((x / RES).floor() as i32, (y / RES).floor() as i32, heading_of(t, NT))
}

type Path = Vec<(f64, f64, f64)>;

/// Follows the policy from a pose.
fn rollout<P: PolicyView>(
    p: &P,
    goal: (f64, f64),
    start: (f64, f64, f64),
    max_steps: usize,
    tolerance: i32,
) -> (Path, RolloutStatus) {
    let (mut x, mut y) = (start.0, start.1);
    let mut deg = start.2.to_degrees().rem_euclid(360.0);
    let (ix, iy, it) = pose_to_cell(x, y, start.2);
    if !p.is_final(ix, iy, it) && p.action_index(ix, iy, it).is_none() && tolerance > 0 {
        if let Some((sx, sy)) = find_plannable_start(p, ix, iy, it, tolerance) {
            x = (sx as f64 + 0.5) * RES;
            y = (sy as f64 + 0.5) * RES;
        }
    }
    let mut path = vec![(x, y, deg.to_radians())];
    let mut trace = RolloutTrace::new(max_steps);
    loop {
        let (ix, iy, it) = pose_to_cell(x, y, deg.to_radians());
        match trace.step(p, ix, iy, it) {
            RolloutStep::Stop(status) => {
                if status == RolloutStatus::ReachedGoal {
                    path.push((goal.0, goal.1, 0.0));
                }
                return (path, status);
            }
            RolloutStep::Act(a) => {
                let (_, fw, rot, _) = STEPS[a];
                x += fw * deg.to_radians().cos();
                y += fw * deg.to_radians().sin();
                deg = (deg + rot).rem_euclid(360.0);
                path.push((x, y, deg.to_radians()));
            }
        }
    }
}

#[test]
fn reaches_goal_on_empty_map() {
    let goal = (2.0, 2.0);
    let vi = solved_vi(64, &empty_map(64), goal);
    let (path, status) = rollout(&vi, goal, (0.6, 0.6, 0.0), 10_000, 0);
    assert_eq!(status, RolloutStatus::ReachedGoal);
    let last = path.last().unwrap();
    assert!((last.0 - goal.0).abs() < 1e-9 && (last.1 - goal.1).abs() < 1e-9);
    assert!(path.len() >= 3);
}

#[test]
fn sparse_solver_policy_is_rolloutable() {
    let goal = (2.0, 2.0);
    let mut vi = unsolved(64, &empty_map(64), &[goal]);
    assert!(frontier2d_solve_observed(&mut vi, 100_000, &mut NullObserver).converged);
    let (_, status) = rollout(&vi, goal, (0.6, 0.6, 0.0), 10_000, 0);
    assert_eq!(status, RolloutStatus::ReachedGoal);
}

#[test]
fn path_avoids_obstacle_cells() {
    let size = 64;
    let goal = (2.8, 0.6);
    let vi = solved_vi(size, &walled_map(size), goal);
    let (path, status) = rollout(&vi, goal, (0.4, 0.4, 0.0), 10_000, 0);
    assert_eq!(status, RolloutStatus::ReachedGoal);
    for p in &path[..path.len() - 1] {
        let (ix, iy, _) = pose_to_cell(p.0, p.1, p.2);
        let s = &vi.states[vi.to_index(ix, iy, 0) as usize];
        assert!(s.free, "pose ({}, {}) fell on an obstacle cell", p.0, p.1);
    }
}

#[test]
fn unreachable_goal_reports_no_action() {
    let size = 64;
    let mut data = empty_map(size);
    for y in 0..size {
        for dx in 0..WALL_THICK {
            data[(y * size + size / 2 + dx) as usize] = 100;
        }
    }
    let goal = (2.8, 0.6);
    let vi = solved_vi(size, &data, goal);
    let (_, status) = rollout(&vi, goal, (0.4, 0.4, 0.0), 10_000, 0);
    assert_eq!(status, RolloutStatus::NoAction);
}

#[test]
fn start_outside_map_reports_out_of_map() {
    let vi = solved_vi(32, &empty_map(32), (1.0, 1.0));
    let (_, status) = rollout(&vi, (1.0, 1.0), (-5.0, -5.0, 0.0), 100, 0);
    assert_eq!(status, RolloutStatus::OutOfMap);
}

#[test]
fn start_on_obstacle_recovers_with_tolerance() {
    let size = 64;
    let mut data = empty_map(size);
    for y in 6..=10 {
        for x in 6..=10 {
            data[(y * size + x) as usize] = 100;
        }
    }
    let goal = (2.0, 2.0);
    let vi = solved_vi(size, &data, goal);
    let s = 8.5 * RES;
    let (_, fail) = rollout(&vi, goal, (s, s, 0.0), 10_000, 0);
    assert_eq!(fail, RolloutStatus::NoAction);
    let (_, ok) = rollout(&vi, goal, (s, s, 0.0), 10_000, 20);
    assert_eq!(ok, RolloutStatus::ReachedGoal);
}

#[test]
fn start_inside_goal_region_returns_immediately() {
    let goal = (1.0, 1.0);
    let vi = solved_vi(32, &empty_map(32), goal);
    let (path, status) = rollout(&vi, goal, (1.0, 1.0, 0.0), 100, 0);
    assert_eq!(status, RolloutStatus::ReachedGoal);
    assert_eq!(path.len(), 2);
}

#[test]
fn compact_sink_rollout_matches_dense() {
    let size = 64;
    let goal = (2.8, 0.6);
    let mut vi = unsolved(size, &walled_map(size), &[goal]);
    let mut sink = RamSink::new((size * size * NT) as usize);
    let s = solve_compact_mapped(&mut vi, 100_000, &mut sink, false, &mut NullObserver);
    assert!(s.converged && !s.cancelled);
    let (dense, status) = rollout(&vi, goal, (0.4, 0.4, 0.0), 10_000, 0);
    assert_eq!(status, RolloutStatus::ReachedGoal);
    let policy = CompactPolicy::new(&sink, (size, size, NT));
    let (compact, status) = rollout(&policy, goal, (0.4, 0.4, 0.0), 10_000, 0);
    assert_eq!(status, RolloutStatus::ReachedGoal);
    assert_eq!(compact, dense);
    assert_eq!(policy.value_at(-1, 0, 0), MAX_COST);
    assert_eq!(policy.cell_num(), vi.cell_num());
}

#[test]
fn optimal_action_at_bounds_and_semantics() {
    let vi = solved_vi(32, &empty_map(32), (1.0, 1.0));
    assert_eq!(optimal_action_at(&vi, -1, 0, 0), -1);
    assert_eq!(optimal_action_at(&vi, 0, 0, NT), -1);
    assert_eq!(optimal_action_at(&vi, 0, 0, -1), -1);
    let a = optimal_action_at(&vi, 4, 4, 0);
    assert!((0..6).contains(&a), "action id = {a}");
}

#[test]
fn set_goal_region_solves_a_multi_goal_field() {
    let mut vi = unsolved(64, &empty_map(64), &[(0.8, 0.8), (2.4, 2.4)]);
    assert!(frontier3d_solve_observed(&mut vi, 100_000, &mut NullObserver).converged);
    for start in [(0.5, 0.5, 0.0), (2.7, 2.7, 0.0)] {
        let (_, status) = rollout(&vi, (0.0, 0.0), start, 10_000, 0);
        assert_eq!(status, RolloutStatus::ReachedGoal, "start {start:?}");
    }
}

fn hyp(x: f64, y: f64, yaw: f64, weight: u32) -> Hypothesis {
    let (ix, iy, it) = pose_to_cell(x, y, yaw);
    Hypothesis { ix, iy, it, weight }
}

fn q_at(vi: &ValueIterator, p: Hypothesis, a: usize) -> u64 {
    let s = &vi.states[vi.to_index(p.ix, p.iy, p.it) as usize];
    action_cost_raw(&vi.states, &vi.actions[a], s, vi.cell_num_x, vi.cell_num_y, vi.cell_num_t)
}

#[test]
fn qmdp_single_hypothesis_matches_greedy() {
    let vi = solved_vi(64, &empty_map(64), (2.0, 2.0));
    let p = hyp(0.6, 0.6, 0.0, 1);
    match qmdp_decide(&vi, &vec![p]) {
        QmdpDecision::Action(a) => {
            assert_eq!(vi.actions[a].id, optimal_action_at(&vi, p.ix, p.iy, p.it))
        }
        d => panic!("expected Action, got {d:?}"),
    }
}

#[test]
fn qmdp_multimodal_avoids_collision_for_significant_hypothesis() {
    let size = 64;
    let vi = solved_vi(size, &walled_map(size), (2.8, 0.6));
    let a = hyp(1.0, 2.0, 0.0, 5);
    let b = hyp(1.475, 2.0, 0.0, 5);
    assert_eq!(q_at(&vi, b, 0), MAX_COST);
    match qmdp_decide(&vi, &vec![a, b]) {
        QmdpDecision::Action(k) => {
            assert_ne!(q_at(&vi, a, k), MAX_COST);
            assert_ne!(q_at(&vi, b, k), MAX_COST);
        }
        d => panic!("expected Action, got {d:?}"),
    }
}

#[test]
fn qmdp_boxed_hypothesis_never_picks_collision() {
    let size = 64;
    let mut data = empty_map(size);
    for y in 4..19 {
        for x in 4..19 {
            data[(y * size + x) as usize] = 100;
        }
    }
    data[(11 * size + 11) as usize] = 0;
    let vi = solved_vi(size, &data, (2.0, 2.0));
    let p = hyp(0.575, 0.575, 0.0, 1);
    assert_eq!(q_at(&vi, p, 0), MAX_COST);
    match qmdp_decide(&vi, &vec![p]) {
        QmdpDecision::Action(k) => {
            assert_ne!(q_at(&vi, p, k), MAX_COST);
            assert_eq!(vi.actions[k].delta_fw, 0);
        }
        d => panic!("expected Action, got {d:?}"),
    }
}

#[test]
fn qmdp_goal_majority_reports_goal() {
    let vi = solved_vi(64, &empty_map(64), (2.0, 2.0));
    let hyps = vec![hyp(2.0, 2.0, 0.0, 6), hyp(0.6, 0.6, 0.0, 4)];
    assert_eq!(qmdp_decide(&vi, &hyps), QmdpDecision::Goal);
}

#[test]
fn half_of_the_weight_is_no_majority() {
    let vi = solved_vi(64, &empty_map(64), (2.0, 2.0));
    let half = vec![hyp(2.0, 2.0, 0.0, 5), hyp(0.6, 0.6, 0.0, 5)];
    assert!(asks_action(&vi, &half));
    assert!(matches!(qmdp_decide(&vi, &half), QmdpDecision::Action(_)));
    let more = vec![hyp(2.0, 2.0, 0.0, 6), hyp(0.6, 0.6, 0.0, 5)];
    assert!(!asks_action(&vi, &more));
    assert_eq!(qmdp_decide(&vi, &more), QmdpDecision::Goal);
    let outside = vec![hyp(2.0, 2.0, 0.0, 5), hyp(0.6, 0.6, 0.0, 4), hyp(-5.0, 0.0, 0.0, 99)];
    assert_eq!(qmdp_decide(&vi, &outside), QmdpDecision::Goal);
}

#[test]
fn without_actions_the_goal_is_still_noticed() {
    let mut vi = solved_vi(64, &empty_map(64), (2.0, 2.0));
    vi.actions.clear();
    for s in vi.states.iter_mut() {
        s.optimal_action = None;
    }
    let hyps = vec![hyp(2.0, 2.0, 0.0, 6), hyp(0.6, 0.6, 0.0, 4)];
    assert!(!asks_action(&vi, &hyps));
    assert_eq!(qmdp_decide(&vi, &hyps), QmdpDecision::Goal);
    assert_eq!(qmdp_decide(&vi, &Vec::new()), QmdpDecision::NoAction);
    assert!(asks_action(&vi, &vec![hyp(0.6, 0.6, 0.0, 4)]));
}

#[test]
fn a_stored_field_of_another_size_cannot_be_read() {
    let sink = RamSink::new(8 * 8 * 60);
    assert!(CompactPolicy::new(&sink, (8, 8, 60)).is_readable());
    assert!(!CompactPolicy::new(&sink, (8, 9, 60)).is_readable());
    assert!(!CompactPolicy::new(&sink, (-8, -8, 60)).is_readable());
    assert!(!CompactPolicy::new(&sink, (i32::MAX, i32::MAX, i32::MAX)).is_readable());
    assert!(make_map(8, 8, &[0; 64], &STEPS, 60, 0.0).is_readable());
}

#[test]
fn qmdp_no_usable_hypotheses_is_no_action() {
    let vi = solved_vi(32, &empty_map(32), (1.0, 1.0));
    let hyps = vec![hyp(-5.0, -5.0, 0.0, 1), hyp(0.6, 0.6, 0.0, 0)];
    assert_eq!(qmdp_decide(&vi, &hyps), QmdpDecision::NoAction);
    assert_eq!(qmdp_decide(&vi, &Vec::new()), QmdpDecision::NoAction);
}

/// Two states and one action that swaps them: a policy that goes round forever.
fn circle() -> ValueIterator {
    let mut a = Action::new("swap", 0, 0, 3);
    let there = vi_lib::action::StateTransition::new(0, 0, 1, PROB_BASE as i32);
    let back = vi_lib::action::StateTransition::new(0, 0, 0, PROB_BASE as i32);
    a.state_transitions = vec![vec![there], vec![back]];
    let mut states = vec![State::new(0, 0, 0, true, PROB_BASE), State::new(0, 0, 1, true, PROB_BASE)];
    for s in states.iter_mut() {
        s.total_cost = PROB_BASE;
        s.optimal_action = Some(0);
    }
    ValueIterator { states, actions: vec![a], cell_num_x: 1, cell_num_y: 1, cell_num_t: 2 }
}

#[test]
fn a_policy_that_goes_round_is_noticed() {
    let vi = circle();
    let mut trace = RolloutTrace::new(1_000);
    for k in 0..2 * REVISIT_LIMIT {
        assert_eq!(trace.step(&vi, 0, 0, (k % 2) as i32), RolloutStep::Act(0));
    }
    assert_eq!(trace.step(&vi, 0, 0, 0), RolloutStep::Stop(RolloutStatus::LoopDetected));
}

#[test]
fn a_rollout_uses_no_more_steps_than_allowed() {
    let vi = circle();
    let mut trace = RolloutTrace::new(3);
    for k in 0..3 {
        assert_eq!(trace.step(&vi, 0, 0, k % 2), RolloutStep::Act(0));
    }
    assert_eq!(trace.step(&vi, 0, 0, 1), RolloutStep::Stop(RolloutStatus::StepLimit));
}

#[test]
fn the_nearest_start_is_found() {
    let mut vi = circle();
    vi.states[0].free = false;
    vi.states[1].final_state = true;
    assert_eq!(find_plannable_start(&vi, 2, -1, 1, 3), Some((0, 0)));
    assert_eq!(find_plannable_start(&vi, 2, -1, 0, 3), None);
    assert_eq!(find_plannable_start(&vi, 5, 0, 1, 3), None);
}

#[test]
fn headings_share_the_circle() {
    assert_eq!(heading_of(0, 60), 0);
    assert_eq!(heading_of(-1, 60), 59);
    assert_eq!(heading_of(359, 60), 59);
    assert_eq!(heading_of(366, 60), 1);
    assert!(heading_of(-36_001, 60) < 0);
    assert!(in_map_area(0, 0, 1, 1) && !in_map_area(1, 0, 1, 1));
}

#[test]
fn densify_bounds_spacing_and_keeps_endpoints() {
    let poses = vec![
        PathPose { x: 0, y: 0, yaw: 0 },
        PathPose { x: 300_000, y: 0, yaw: 0 },
        PathPose { x: 300_000, y: 300_000, yaw: 57_295_780 },
    ];
    let dense = densify(&poses, 50_000);
    assert_eq!(dense.first().unwrap(), &poses[0]);
    assert_eq!(dense.last().unwrap(), &poses[2]);
    for w in dense.windows(2) {
        let dx = (w[1].x - w[0].x) as f64 / 1e6;
        let dy = (w[1].y - w[0].y) as f64 / 1e6;
        let d = (dx * dx + dy * dy).sqrt();
        assert!(d <= RES + 1e-9, "spacing {d} exceeds max");
    }
    assert_eq!(dense.len(), 13);
    assert_eq!((dense[1].x, dense[1].y), (50_000, 0));
}

#[test]
fn densify_keeps_what_cannot_be_cut() {
    let one = vec![PathPose { x: 5, y: 6, yaw: 7 }];
    assert_eq!(densify(&one, 50_000), one);
    let two = vec![PathPose { x: 0, y: 0, yaw: 0 }, PathPose { x: 100, y: 0, yaw: 0 }];
    assert_eq!(densify(&two, 0), two);
    assert_eq!(densify(&two, -1), two);
    assert_eq!(densify(&two, 40).len(), 4);
}

#[test]
fn poses_are_in_the_cell_below_them() {
    assert_eq!(vi_lib::planner::pose_to_cell(125_000, 49_999, 90, 50_000, 60), (2, 0, 15));
    assert_eq!(vi_lib::planner::pose_to_cell(-1, -50_001, -6, 50_000, 60), (-1, -2, 59));
}

#[test]
fn a_problem_that_does_not_hold_together_is_noticed() {
    let vi = make_map(8, 8, &[0; 64], &STEPS, 60, 0.0);
    assert!(vi.is_usable());
    let mut moved = make_map(8, 8, &[0; 64], &STEPS, 60, 0.0);
    moved.states[3].ix = 5;
    assert!(!moved.is_usable());
    let mut short = make_map(8, 8, &[0; 64], &STEPS, 60, 0.0);
    short.states.pop();
    assert!(!short.is_usable());
    let mut lost = make_map(8, 8, &[0; 64], &STEPS, 60, 0.0);
    lost.states[0].optimal_action = Some(6);
    assert!(!lost.is_usable());
    let mut still = make_map(8, 8, &[0; 64], &STEPS, 60, 0.0);
    still.actions[0].state_transitions.pop();
    assert!(!still.is_usable());
    let mut less = make_map(8, 8, &[0; 64], &STEPS, 60, 0.0);
    less.actions[0].state_transitions[0][0].prob = -1;
    assert!(!less.is_usable());
}
