//! The solvers that work on the whole map.
use vi_lib::action::{Action, StateTransition};
use vi_lib::params::{MAX_COST, PROB_BASE, REACH_THRESH};
use vi_lib::planner::RamSink;
use vi_lib::solvers::compact::solve_compact_mapped;
use vi_lib::solvers::frontier2d::frontier2d_solve_observed;
use vi_lib::solvers::frontier3d::frontier3d_solve_observed;
use vi_lib::solvers::observe::{NullObserver, SolveFlow, SolveObserver};
use vi_lib::solvers::ordered::ordered_sweep;
use vi_lib::state::State;
use vi_lib::transition::{compute_theta_transitions, Motion};
use vi_lib::value_iterator::{value_iteration_raw, ValueIterator};

/// Cell width of the test maps, in metres.
const RES: f64 = 0.05;

/// A movement: metres to the front, degrees to the left.
type Step = (&'static str, f64, f64, i32);

/// The usual movements.
#[allow(dead_code)]
const STEPS: [Step; 6] = [
    ("forward", 0.3, 0.0, 0),
    ("back", -0.2, 0.0, 1),
    ("right", 0.0, -20.0, 2),
    ("rightfw", 0.2, -20.0, 3),
    ("left", 0.0, 20.0, 4),
    ("leftfw", 0.2, 20.0, 5),
];

/// Movements of one cell at most.
#[allow(dead_code)]
const SMALL_STEPS: [Step; 6] = [
    ("fw", 0.05, 0.0, 0),
    ("back", -0.05, 0.0, 1),
    ("right", 0.0, -30.0, 2),
    ("rightfw", 0.05, -30.0, 3),
    ("left", 0.0, 30.0, 4),
    ("leftfw", 0.05, 30.0, 5),
];

fn motion(fw: f64, rot: f64, it: i32, res: f64, t_res: f64) -> Motion {
    let moves = (0..64)
        .map(|k| {
            let deg = (it as f64 + (k as f64 + 0.5) / 64.0) * t_res;
            let a = deg.to_radians();
            ((fw * a.cos() * 1e9).round() as i64, (fw * a.sin() * 1e9).round() as i64)
        })
        .collect();
    Motion {
        moves,
        rot: (rot * 1e6).round() as i64,
        it,
        xy_res: (res * 1e9).round() as i64,
        t_res: (t_res * 1e6).round() as i64,
    }
}

fn action(step: &Step, nt: i32) -> Action {
    let mut a = Action::new(
        step.0,
        (step.1 * 1e9).round() as i64,
        (step.2 * 1e6).round() as i64,
        step.3,
    );
    let t_res = (360 / nt) as f64;
    for it in 0..nt {
        a.state_transitions.push(compute_theta_transitions(&motion(step.1, step.2, it, RES, t_res)));
    }
    a
}

/// A map with a margin of `margin` metres around obstacles.
fn make_map(w: i32, h: i32, occ: &[i8], steps: &[Step], nt: i32, margin: f64) -> ValueIterator {
    let m = (margin / RES).ceil() as i32;
    let mut states = Vec::new();
    for y in 0..h {
        for x in 0..w {
            let free = occ[(y * w + x) as usize] == 0;
            let mut near = false;
            for v in (y - m).max(0)..=(y + m).min(h - 1) {
                for u in (x - m).max(0)..=(x + m).min(w - 1) {
                    near |= occ[(v * w + u) as usize] != 0;
                }
            }
            let penalty = if near { 30 * PROB_BASE } else { PROB_BASE };
            for t in 0..nt {
                states.push(State::new(x, y, t, free, penalty));
            }
        }
    }
    ValueIterator {
        states,
        actions: steps.iter().map(|s| action(s, nt)).collect(),
        cell_num_x: w,
        cell_num_y: h,
        cell_num_t: nt,
    }
}

/// Marks the states whose cell lies within `radius` metres of a goal and whose heading is
/// within `margin` degrees of `deg`.
#[allow(dead_code)]
fn set_goals(vi: &mut ValueIterator, goals: &[(f64, f64)], deg: i32, radius: f64, margin: i32) {
    let t_res = 360 / vi.cell_num_t;
    for s in vi.states.iter_mut() {
        let (t0, t1) = (s.it * t_res, (s.it + 1) * t_res);
        let other = if deg > 180 { deg - 360 } else { deg + 360 };
        let heading = [deg, other].iter().any(|g| g - margin <= t0 && t1 <= g + margin);
        let place = goals.iter().any(|g| {
            let (x0, y0) = (s.ix as f64 * RES, s.iy as f64 * RES);
            let (x1, y1) = (x0 + RES, y0 + RES);
            (x0 - g.0).powi(2) + (y0 - g.1).powi(2) < radius * radius
                && (x1 - g.0).powi(2) + (y1 - g.1).powi(2) < radius * radius
        });
        s.final_state = s.free && heading && place;
        s.total_cost = if s.final_state { 0 } else { MAX_COST };
        s.optimal_action = None;
        s.local_penalty = 0;
    }
}

/// Sweeps a field until nothing moves any more.
#[allow(dead_code)]
fn run_reference_to_fixed_point(vi: &mut ValueIterator) {
    let (nx, ny, nt) = (vi.cell_num_x, vi.cell_num_y, vi.cell_num_t);
    for _ in 0..100_000 {
        let mut moved = false;
        for i in 0..vi.states.len() {
            moved |= value_iteration_raw(&mut vi.states, &vi.actions, i, nx, ny, nt) > 0;
        }
        if !moved {
            return;
        }
    }
    panic!("the field does not settle");
}

fn make_vi(w: i32, h: i32, occ: &[i8]) -> ValueIterator {
    let mut vi = make_map(w, h, occ, &STEPS, 60, 0.1);
    set_goals(&mut vi, &[(0.5, 0.5)], 0, 0.2, 180);
    vi
}

/// A wall with gaps at both ends.
fn wall(w: i32, h: i32, x: i32, lo: i32, hi: i32) -> Vec<i8> {
    let mut occ = vec![0i8; (w * h) as usize];
    for y in lo..hi {
        occ[(y * w + x) as usize] = 100;
    }
    occ
}

#[test]
fn ordered_sweep_from_upper_bound_lands_on_oracle() {
    let (w, h) = (40, 30);
    let occ = wall(w, h, 20, 5, 25);
    let mut vi = make_vi(w, h, &occ);
    let st = frontier2d_solve_observed(&mut vi, 100_000, &mut NullObserver);
    assert!(st.converged);
    let oracle: Vec<u64> = vi.states.iter().map(|s| s.total_cost).collect();
    let opt: Vec<Option<usize>> = vi.states.iter().map(|s| s.optimal_action).collect();
    for s in vi.states.iter_mut() {
        if !s.final_state && s.total_cost < MAX_COST {
            s.total_cost += 12_345_678;
        }
    }
    let out = ordered_sweep(&mut vi, 10_000);
    assert!(out.converged, "{out:?}");
    let mm = vi.states.iter().zip(&oracle).filter(|(s, &o)| s.total_cost != o).count();
    assert_eq!(mm, 0, "{out:?}");
    let mp = vi
        .states
        .iter()
        .zip(&opt)
        .filter(|(s, &o)| s.total_cost < MAX_COST && s.optimal_action != o)
        .count();
    assert_eq!(mp, 0);
}

#[test]
fn frontiers_reach_the_reference_fixed_point() {
    let (w, h) = (16, 12);
    let occ = wall(w, h, 8, 2, 9);
    let fresh = || {
        let mut vi = make_map(w, h, &occ, &SMALL_STEPS, 12, 0.05);
        set_goals(&mut vi, &[(0.15, 0.15)], 0, 0.12, 45);
        vi
    };
    let mut exact = fresh();
    run_reference_to_fixed_point(&mut exact);
    let mut a = fresh();
    assert!(frontier2d_solve_observed(&mut a, 100_000, &mut NullObserver).converged);
    let mut b = fresh();
    assert!(frontier3d_solve_observed(&mut b, 100_000, &mut NullObserver).converged);
    for i in 0..exact.states.len() {
        assert_eq!(exact.states[i].total_cost, a.states[i].total_cost, "planar @ {i}");
        assert_eq!(exact.states[i].total_cost, b.states[i].total_cost, "spatial @ {i}");
    }
}

#[test]
fn a_solve_that_is_cut_short_says_so() {
    let (w, h) = (16, 12);
    let occ = vec![0i8; (w * h) as usize];
    let mut vi = make_map(w, h, &occ, &SMALL_STEPS, 12, 0.05);
    set_goals(&mut vi, &[(0.15, 0.15)], 0, 0.12, 45);
    let out = frontier2d_solve_observed(&mut vi, 1, &mut NullObserver);
    assert!(!out.converged && out.iters == 1);
}

#[test]
fn a_solved_field_is_not_touched_again() {
    let (w, h) = (16, 12);
    let occ = vec![0i8; (w * h) as usize];
    let mut vi = make_map(w, h, &occ, &SMALL_STEPS, 12, 0.05);
    set_goals(&mut vi, &[(0.15, 0.15)], 0, 0.12, 45);
    frontier2d_solve_observed(&mut vi, 100_000, &mut NullObserver);
    let before = vi.states.clone();
    let again = frontier2d_solve_observed(&mut vi, 100_000, &mut NullObserver);
    assert!(again.converged && again.updates == 0);
    assert_eq!(before, vi.states);
}

/// Stops a solve after a number of rounds.
struct StopAfter(u64, SolveFlow);

impl SolveObserver for StopAfter {
    fn due(&mut self, iters: u64) -> bool {
        iters >= self.0
    }

    fn boundary(&mut self, _vi: &ValueIterator, _iters: u32, _updates: u64) -> SolveFlow {
        self.1
    }
}

#[test]
fn an_observer_ends_a_solve_between_rounds() {
    let (w, h) = (16, 12);
    let occ = vec![0i8; (w * h) as usize];
    let mut vi = make_map(w, h, &occ, &SMALL_STEPS, 12, 0.05);
    set_goals(&mut vi, &[(0.15, 0.15)], 0, 0.12, 45);
    let out = frontier2d_solve_observed(&mut vi, 1_000, &mut StopAfter(2, SolveFlow::Stop));
    assert!(out.stopped && !out.cancelled && !out.converged);
    let out = frontier3d_solve_observed(&mut vi, 1_000, &mut StopAfter(1, SolveFlow::Cancel));
    assert!(out.cancelled && !out.stopped);
}

/// Looks at every second round, and answers `flow` to round `last`.
struct Recorder {
    asked: Vec<u64>,
    shown: Vec<(u32, u64, Vec<u64>)>,
    last: u32,
    flow: SolveFlow,
}

impl Recorder {
    fn new(last: u32, flow: SolveFlow) -> Recorder {
        Recorder { asked: Vec::new(), shown: Vec::new(), last, flow }
    }
}

impl SolveObserver for Recorder {
    fn due(&mut self, iters: u64) -> bool {
        self.asked.push(iters);
        iters % 2 == 0
    }

    fn boundary(&mut self, vi: &ValueIterator, iters: u32, updates: u64) -> SolveFlow {
        self.shown.push((iters, updates, vi.states.iter().map(|s| s.total_cost).collect()));
        if iters == self.last {
            self.flow
        } else {
            SolveFlow::Continue
        }
    }
}

fn small() -> ValueIterator {
    let (w, h) = (16, 12);
    let mut vi = make_map(w, h, &wall(w, h, 8, 2, 9), &SMALL_STEPS, 12, 0.05);
    set_goals(&mut vi, &[(0.15, 0.15)], 0, 0.12, 45);
    vi
}

#[test]
fn an_observer_is_asked_after_every_round_that_left_work() {
    let whole = frontier2d_solve_observed(&mut small(), 1_000, &mut NullObserver);
    assert!(whole.converged && whole.iters > 4);
    let mut rec = Recorder::new(0, SolveFlow::Continue);
    assert_eq!(frontier2d_solve_observed(&mut small(), 1_000, &mut rec), whole);
    assert_eq!(rec.asked, (1..whole.iters as u64).collect::<Vec<u64>>());
    let shown: Vec<u32> = rec.shown.iter().map(|r| r.0).collect();
    assert_eq!(shown, (1..whole.iters).filter(|n| n % 2 == 0).collect::<Vec<u32>>());
    for (iters, updates, values) in &rec.shown {
        let mut vi = small();
        let part = frontier2d_solve_observed(&mut vi, *iters, &mut NullObserver);
        assert_eq!((part.iters, part.updates), (*iters, *updates));
        assert_eq!(&vi.states.iter().map(|s| s.total_cost).collect::<Vec<u64>>(), values);
    }
    let whole = frontier3d_solve_observed(&mut small(), 1_000, &mut NullObserver);
    let mut rec = Recorder::new(0, SolveFlow::Continue);
    assert_eq!(frontier3d_solve_observed(&mut small(), 1_000, &mut rec), whole);
    assert_eq!(rec.asked, (1..whole.iters as u64).collect::<Vec<u64>>());
}

#[test]
fn an_answer_other_than_continue_is_the_last() {
    let mut rec = Recorder::new(4, SolveFlow::Stop);
    let mut vi = small();
    let out = frontier2d_solve_observed(&mut vi, 1_000, &mut rec);
    assert!(out.stopped && !out.cancelled && !out.converged);
    assert_eq!(rec.asked, vec![1, 2, 3, 4]);
    assert_eq!(rec.shown.len(), 2);
    assert_eq!((rec.shown[1].0, rec.shown[1].1), (out.iters, out.updates));
    assert_eq!(out.iters, 4);
    assert_eq!(rec.shown[1].2, vi.states.iter().map(|s| s.total_cost).collect::<Vec<u64>>());
    let mut rec = Recorder::new(2, SolveFlow::Cancel);
    let out = frontier3d_solve_observed(&mut small(), 1_000, &mut rec);
    assert!(out.cancelled && !out.stopped && !out.converged && out.iters == 2);
    assert_eq!(rec.asked, vec![1, 2]);
}

#[test]
fn without_rounds_nobody_is_asked() {
    let mut rec = Recorder::new(0, SolveFlow::Stop);
    let mut vi = small();
    let before = vi.states.clone();
    let out = frontier2d_solve_observed(&mut vi, 0, &mut rec);
    assert!(!out.converged && !out.stopped && !out.cancelled);
    assert_eq!((out.iters, out.updates), (0, 0));
    assert!(rec.asked.is_empty() && rec.shown.is_empty());
    assert_eq!(before, vi.states);
}

#[test]
fn solvers_agree_around_a_pocket_that_nobody_reaches() {
    let (w, h) = (16, 12);
    let mut occ = vec![0i8; (w * h) as usize];
    for y in 5..10 {
        for x in 8..13 {
            if y == 5 || y == 9 || x == 8 || x == 12 {
                occ[(y * w + x) as usize] = 100;
            }
        }
    }
    let fresh = || {
        let mut vi = make_map(w, h, &occ, &SMALL_STEPS, 12, 0.05);
        set_goals(&mut vi, &[(0.15, 0.15)], 0, 0.12, 45);
        vi
    };
    let mut a = fresh();
    assert!(frontier2d_solve_observed(&mut a, 100_000, &mut NullObserver).converged);
    let mut b = fresh();
    assert!(frontier3d_solve_observed(&mut b, 100_000, &mut NullObserver).converged);
    let mut reached = 0;
    for i in 0..a.states.len() {
        if a.states[i].total_cost < REACH_THRESH {
            reached += 1;
            assert_eq!(a.states[i].total_cost, b.states[i].total_cost, "value @ {i}");
            assert_eq!(a.states[i].optimal_action, b.states[i].optimal_action, "policy @ {i}");
        }
    }
    assert!(reached > 0 && reached < a.states.iter().filter(|s| s.free).count());
}

#[test]
fn compact_mapped_solve_honours_cancel() {
    let size = 64;
    let occ = vec![0i8; (size * size) as usize];
    let mut vi = make_map(size, size, &occ, &STEPS, 60, 0.1);
    set_goals(&mut vi, &[(2.0, 2.0)], 0, 0.2, 180);
    let mut sink = RamSink::new((size * size * 60) as usize);
    let s = solve_compact_mapped(&mut vi, 100_000, &mut sink, true, &mut NullObserver);
    assert!(!s.converged && s.cancelled);
    assert!(sink.cells.iter().all(|&c| c == (MAX_COST, -1)));
}

/// A row of cells with a row of dead ends beside it: the bold action is quicker, but may end
/// in one of them.
fn leaky_row() -> ValueIterator {
    let steps = |list: &[(i32, i32, i32)]| -> Vec<Vec<StateTransition>> {
        vec![list
            .iter()
            .map(|&(dix, diy, prob)| StateTransition { dix, diy, dit: 0, prob })
            .collect()]
    };
    let full = PROB_BASE as i32;
    let mut bold = Action::new("bold", 0, 0, 0);
    bold.state_transitions = steps(&[(-2, 0, full - full / 8), (-2, 1, full / 8)]);
    let mut careful = Action::new("careful", 0, 0, 1);
    careful.state_transitions = steps(&[(-1, 0, full)]);
    let mut states = Vec::new();
    for y in 0..2 {
        for x in 0..8 {
            let free = y == 0 || x % 3 == 2;
            let mut s = State::new(x, y, 0, free, PROB_BASE);
            s.final_state = (x, y) == (0, 0);
            s.total_cost = if s.final_state { 0 } else { MAX_COST };
            states.push(s);
        }
    }
    ValueIterator {
        states,
        actions: vec![bold, careful],
        cell_num_x: 8,
        cell_num_y: 2,
        cell_num_t: 1,
    }
}

#[test]
fn solvers_agree_beside_dead_ends() {
    let mut a = leaky_row();
    assert!(frontier2d_solve_observed(&mut a, 1_000, &mut NullObserver).converged);
    let mut b = leaky_row();
    assert!(frontier3d_solve_observed(&mut b, 1_000, &mut NullObserver).converged);
    let mut c = leaky_row();
    run_reference_to_fixed_point(&mut c);
    let mut d = leaky_row();
    for (s, o) in d.states.iter_mut().zip(&a.states) {
        if !s.final_state && o.total_cost < REACH_THRESH {
            s.total_cost = o.total_cost + 777;
        }
    }
    assert!(ordered_sweep(&mut d, 1_000).converged);
    for x in 0..8 {
        assert_eq!(a.states[x].total_cost, x as u64 * PROB_BASE);
        for o in [&b, &c, &d] {
            assert_eq!(a.states[x].total_cost, o.states[x].total_cost, "value @ {x}");
            assert_eq!(a.states[x].optimal_action, o.states[x].optimal_action, "policy @ {x}");
        }
    }
    assert_eq!(a.states[4].optimal_action, Some(1));
}
