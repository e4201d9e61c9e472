//! The tiled solver.
use vi_lib::action::{Action, StateTransition};
use vi_lib::grid::to_index_raw;
use vi_lib::params::{MAX_COST, PROB_BASE, REACH_THRESH};
use vi_lib::planner::{heading_of, find_plannable_start, PolicyView, RolloutStatus, RolloutStep, RolloutTrace};
use vi_lib::solvers::observe::{NullObserver, SolveFlow, SolveObserver};
use vi_lib::solvers::schur::query::tiles_covering;
use vi_lib::solvers::schur::{
    build, build_with, can_solve, corridor_tiles, fix_portal_actions, materialize_many,
    materialize_one, materialize_one_multi, patch_agg, portal_costs, portal_costs_agg,
    portal_costs_masked, schur_solve_agg, schur_solve_observed, schur_solve_observed_agg,
    schur_solve_with, upper_bound_field, upper_bound_field_agg, LoadError, PatchAgg, Portal,
    SchurArtifact, SchurConfig, TileEdges, TileScratch,
};
use vi_lib::state::State;
use vi_lib::transition::{compute_theta_transitions, Motion};
use vi_lib::value_iterator::{value_iteration_raw, ValueIterator};

/// Cell width of the test maps, in metres.
const RES: f64 = 0.05;

/// A movement: metres to the front, degrees to the left.
type Step = (&'static str, f64, f64, i32);

/// The usual movements.
#[allow(dead_code)]
const STEPS: [Step; 6] = [
    ("forward", 0.3, 0.0, 0),
    ("back", -0.2, 0.0, 1),
    ("right", 0.0, -20.0, 2),
    ("rightfw", 0.2, -20.0, 3),
    ("left", 0.0, 20.0, 4),
    ("leftfw", 0.2, 20.0, 5),
];

/// Movements of one cell at most.
#[allow(dead_code)]
const SMALL_STEPS: [Step; 6] = [
    ("fw", 0.05, 0.0, 0),
    ("back", -0.05, 0.0, 1),
    ("right", 0.0, -30.0, 2),
    ("rightfw", 0.05, -30.0, 3),
    ("left", 0.0, 30.0, 4),
    ("leftfw", 0.05, 30.0, 5),
];

fn motion(fw: f64, rot: f64, it: i32, res: f64, t_res: f64) -> Motion {
    let moves = (0..64)
        .map(|k| {
            let deg = (it as f64 + (k as f64 + 0.5) / 64.0) * t_res;
            let a = deg.to_radians();
            ((fw * a.cos() * 1e9).round() as i64, (fw * a.sin() * 1e9).round() as i64)
        })
        .collect();
    Motion {
        moves,
        rot: (rot * 1e6).round() as i64,
        it,
        xy_res: (res * 1e9).round() as i64,
        t_res: (t_res * 1e6).round() as i64,
    }
}

fn action(step: &Step, nt: i32) -> Action {
    let mut a = Action::new(
        step.0,
        (step.1 * 1e9).round() as i64,
        (step.2 * 1e6).round() as i64,
        step.3,
    );
    let t_res = (360 / nt) as f64;
    for it in 0..nt {
        a.state_transitions.push(compute_theta_transitions(&motion(step.1, step.2, it, RES, t_res)));
    }
    a
}

/// A map with a margin of `margin` metres around obstacles.
fn make_map(w: i32, h: i32, occ: &[i8], steps: &[Step], nt: i32, margin: f64) -> ValueIterator {
    let m = (margin / RES).ceil() as i32;
    let mut states = Vec::new();
    for y in 0..h {
        for x in 0..w {
            let free = occ[(y * w + x) as usize] == 0;
            let mut near = false;
            for v in (y - m).max(0)..=(y + m).min(h - 1) {
                for u in (x - m).max(0)..=(x + m).min(w - 1) {
                    near |= occ[(v * w + u) as usize] != 0;
                }
            }
            let penalty = if near { 30 * PROB_BASE } else { PROB_BASE };
            for t in 0..nt {
                states.push(State::new(x, y, t, free, penalty));
            }
        }
    }
    ValueIterator {
        states,
        actions: steps.iter().map(|s| action(s, nt)).collect(),
        cell_num_x: w,
        cell_num_y: h,
        cell_num_t: nt,
    }
}

/// Marks the states whose cell lies within `radius` metres of a goal and whose heading is
/// within `margin` degrees of `deg`.
#[allow(dead_code)]
fn set_goals(vi: &mut ValueIterator, goals: &[(f64, f64)], deg: i32, radius: f64, margin: i32) {
    let t_res = 360 / vi.cell_num_t;
    for s in vi.states.iter_mut() {
        let (t0, t1) = (s.it * t_res, (s.it + 1) * t_res);
        let other = if deg > 180 { deg - 360 } else { deg + 360 };
        let heading = [deg, other].iter().any(|g| g - margin <= t0 && t1 <= g + margin);
        let place = goals.iter().any(|g| {
            let (x0, y0) = (s.ix as f64 * RES, s.iy as f64 * RES);
            let (x1, y1) = (x0 + RES, y0 + RES);
            (x0 - g.0).powi(2) + (y0 - g.1).powi(2) < radius * radius
                && (x1 - g.0).powi(2) + (y1 - g.1).powi(2) < radius * radius
        });
        s.final_state = s.free && heading && place;
        s.total_cost = if s.final_state { 0 } else { MAX_COST };
        s.optimal_action = None;
        s.local_penalty = 0;
    }
}

/// Sweeps a field until nothing moves any more.
#[allow(dead_code)]
fn run_reference_to_fixed_point(vi: &mut ValueIterator) {
    let (nx, ny, nt) = (vi.cell_num_x, vi.cell_num_y, vi.cell_num_t);
    for _ in 0..100_000 {
        let mut moved = false;
        for i in 0..vi.states.len() {
            moved |= value_iteration_raw(&mut vi.states, &vi.actions, i, nx, ny, nt) > 0;
        }
        if !moved {
            return;
        }
    }
    panic!("the field does not settle");
}

/// Two rooms with a door between them; the goal is in the left one.
fn corridor_vi() -> ValueIterator {
    let (w, h) = (24i32, 18i32);
    let mut occ = vec![0i8; (w * h) as usize];
    for y in 0..h {
        if !(8..10).contains(&y) {
            occ[(y * w + 12) as usize] = 100;
        }
    }
    let mut vi = make_map(w, h, &occ, &SMALL_STEPS, 12, 0.05);
    set_goals(&mut vi, &[(0.15, 0.15)], 0, 0.12, 45);
    vi
}

fn cfg() -> SchurConfig {
    SchurConfig { tile: 6, portal_thetas: 4, spacing: 16 }
}

/// Follows the policy from a pose, with small steps; says whether it reached the goal.
fn reaches_goal(vi: &ValueIterator, mut x: f64, mut y: f64, yaw: f64) -> bool {
    let cell = |x: f64, y: f64, deg: f64| {
        ((x / RES).floor() as i32, (y / RES).floor() as i32, heading_of(deg as i32, vi.cell_num_t))
    };
    let mut deg = yaw.to_degrees().rem_euclid(360.0);
    let (ix, iy, it) = cell(x, y, deg);
    if !vi.is_final(ix, iy, it) && vi.action_index(ix, iy, it).is_none() {
        if let Some((sx, sy)) = find_plannable_start(vi, ix, iy, it, 2) {
            x = (sx as f64 + 0.5) * RES;
            y = (sy as f64 + 0.5) * RES;
        }
    }
    let mut trace = RolloutTrace::new(4000);
    loop {
        let (ix, iy, it) = cell(x, y, deg);
        match trace.step(vi, ix, iy, it) {
            RolloutStep::Stop(status) => return status == RolloutStatus::ReachedGoal,
            RolloutStep::Act(a) => {
                let (_, fw, rot, _) = SMALL_STEPS[a];
                x += fw * deg.to_radians().cos();
                y += fw * deg.to_radians().sin();
                deg = (deg + rot).rem_euclid(360.0);
            }
        }
    }
}

#[test]
fn composition_is_upper_bound_and_rollout_sound() {
    let mut exact = corridor_vi();
    run_reference_to_fixed_point(&mut exact);
    let mut vi = corridor_vi();
    let art = build(&vi, &cfg());
    assert!(art.tnx >= 2 && art.tny >= 2);
    assert!(!art.portals.is_empty());
    assert!(
        art.portals.iter().any(|p| p.ix == 12 && (8..10).contains(&p.iy)),
        "no portal in the door: {:?}",
        art.portals
    );
    upper_bound_field(&mut vi, &art);
    for i in 0..exact.states.len() {
        assert!(
            vi.states[i].total_cost >= exact.states[i].total_cost,
            "not a bound @ {i}: {} < {}",
            vi.states[i].total_cost,
            exact.states[i].total_cost
        );
    }
    let far = exact
        .states
        .iter()
        .filter(|s| s.free && !s.final_state && s.total_cost < REACH_THRESH && s.ix > 12)
        .max_by_key(|s| s.total_cost)
        .expect("the right room is reachable");
    let fi = to_index_raw(far.ix, far.iy, far.it, exact.cell_num_x, exact.cell_num_t) as usize;
    assert!(vi.states[fi].total_cost < MAX_COST, "no value behind the door");
    let (mut exact_ok, mut vhat_ok) = (0u32, 0u32);
    for s0 in exact
        .states
        .iter()
        .filter(|s| s.free && !s.final_state && s.total_cost < REACH_THRESH && s.ix > 12)
    {
        let sx = (s0.ix as f64 + 0.5) * RES;
        let sy = (s0.iy as f64 + 0.5) * RES;
        let yaw = ((s0.it as f64 + 0.5) * 30.0).to_radians();
        if !reaches_goal(&exact, sx, sy, yaw) {
            continue;
        }
        exact_ok += 1;
        if reaches_goal(&vi, sx, sy, yaw) {
            vhat_ok += 1;
        }
    }
    assert!(exact_ok > 0);
    assert!(vhat_ok > 0, "no rollout gets through the door ({exact_ok} starts)");
}

#[test]
fn solve_with_reaches_reference_fixed_point() {
    let mut exact = corridor_vi();
    run_reference_to_fixed_point(&mut exact);
    let mut vi = corridor_vi();
    let art = build(&vi, &cfg());
    let out = schur_solve_with(&mut vi, &art, 100_000, &mut NullObserver);
    assert!(out.converged);
    for i in 0..exact.states.len() {
        if exact.states[i].total_cost < REACH_THRESH {
            assert_eq!(exact.states[i].total_cost, vi.states[i].total_cost, "value @ {i}");
            assert_eq!(exact.states[i].optimal_action, vi.states[i].optimal_action, "policy @ {i}");
        }
    }
}

#[test]
fn solving_from_scratch_reaches_the_same_values() {
    let mut exact = corridor_vi();
    run_reference_to_fixed_point(&mut exact);
    let mut vi = corridor_vi();
    let out = schur_solve_observed(&mut vi, 100_000, &mut NullObserver, cfg());
    assert!(out.converged);
    for i in 0..exact.states.len() {
        if exact.states[i].total_cost < REACH_THRESH {
            assert_eq!(exact.states[i].total_cost, vi.states[i].total_cost);
        }
    }
}

#[test]
fn two_level_corridor_query_is_sound() {
    let mut exact = corridor_vi();
    run_reference_to_fixed_point(&mut exact);
    let vi = corridor_vi();
    let coarse = build(&vi, &cfg());
    let fine = build(&vi, &SchurConfig { tile: 6, portal_thetas: 8, spacing: 3 });
    assert_eq!((coarse.tile, coarse.halo), (fine.tile, fine.halo));
    let dij_c = portal_costs_masked(&vi, &coarse, None);
    let dij_f_full = portal_costs_masked(&vi, &fine, None);
    let far = exact
        .states
        .iter()
        .filter(|s| s.free && !s.final_state && s.total_cost < REACH_THRESH && s.ix > 12)
        .max_by_key(|s| s.total_cost)
        .expect("the right room is reachable");
    let rt = (far.iy / coarse.tile) * coarse.tnx + far.ix / coarse.tile;
    let mask = corridor_tiles(&coarse, &dij_c, &vec![rt], 1);
    let n_cor = mask.iter().filter(|&&b| b).count();
    assert!(n_cor > 0 && n_cor <= mask.len());
    let dij_f = portal_costs_masked(&vi, &fine, Some(&mask));
    for i in 0..fine.portals.len() {
        assert!(dij_f.d[i] >= dij_f_full.d[i], "portal {i}");
    }
    let finals: Vec<(i32, i32, i32)> =
        vi.states.iter().filter(|s| s.final_state).map(|s| (s.ix, s.iy, s.it)).collect();
    let mut tv = TileScratch::new(&vi, &coarse);
    let mut vi_c = corridor_vi();
    materialize_one(&mut vi_c, &coarse, &dij_c.d, &finals, &mut tv, rt);
    let mut vi_2 = corridor_vi();
    materialize_one_multi(
        &mut vi_2,
        &[(&coarse, &dij_c.d), (&fine, &dij_f.d)],
        &finals,
        &mut tv,
        rt,
    );
    let fi = to_index_raw(far.ix, far.iy, far.it, exact.cell_num_x, exact.cell_num_t) as usize;
    assert!(vi_2.states[fi].total_cost < MAX_COST);
    for i in 0..exact.states.len() {
        assert!(vi_2.states[i].total_cost >= exact.states[i].total_cost, "not a bound @ {i}");
        assert!(vi_2.states[i].total_cost <= vi_c.states[i].total_cost, "worse @ {i}");
    }
}

#[test]
fn artifact_roundtrip() {
    let vi = corridor_vi();
    let art = build(&vi, &cfg());
    let bytes = art.save();
    let loaded = SchurArtifact::load(&bytes).unwrap();
    assert_eq!(art, loaded);
}

#[test]
fn a_cut_or_foreign_file_is_refused() {
    let vi = corridor_vi();
    let art = build(&vi, &cfg());
    let mut bytes = art.save();
    let cut = bytes[..bytes.len() - 1].to_vec();
    assert!(matches!(SchurArtifact::load(&cut), Err(LoadError::UnexpectedEof)));
    bytes[0] = b'X';
    assert!(matches!(SchurArtifact::load(&bytes), Err(LoadError::NotAnArtifact)));
    assert!(matches!(SchurArtifact::load(&Vec::new()), Err(LoadError::UnexpectedEof)));
}

#[test]
fn crossing_costs_of_a_portal_to_itself_are_zero() {
    let vi = corridor_vi();
    let art = build(&vi, &cfg());
    for e in &art.tiles {
        let n = e.portals.len();
        assert_eq!(e.w.len(), n * n);
        for i in 0..n {
            assert_eq!(e.w[i * n + i], 0);
        }
    }
}

#[test]
fn portal_values_bound_the_field_at_their_centres() {
    let mut exact = corridor_vi();
    run_reference_to_fixed_point(&mut exact);
    let vi = corridor_vi();
    let art = build(&vi, &cfg());
    let d = portal_costs(&vi, &art);
    for (p, &v) in art.portals.iter().zip(&d) {
        let i = to_index_raw(p.ix, p.iy, p.it, vi.cell_num_x, vi.cell_num_t) as usize;
        if exact.states[i].free {
            assert!(v >= exact.states[i].total_cost);
        }
    }
}

#[test]
fn portal_actions_are_fixed_without_moving_values() {
    let mut vi = corridor_vi();
    let art = build(&vi, &cfg());
    upper_bound_field(&mut vi, &art);
    let before: Vec<u64> = vi.states.iter().map(|s| s.total_cost).collect();
    fix_portal_actions(&mut vi, &art);
    let after: Vec<u64> = vi.states.iter().map(|s| s.total_cost).collect();
    assert_eq!(before, after);
}

#[test]
fn settings_name_how_patches_are_summed_up() {
    assert_eq!(patch_agg(Some("center")), PatchAgg::Center);
    assert_eq!(patch_agg(Some("mean")), PatchAgg::Mean);
    assert_eq!(patch_agg(Some("max")), PatchAgg::Max);
    assert_eq!(patch_agg(None), PatchAgg::Max);
}

#[test]
fn mean_crossings_do_not_exceed_the_largest() {
    let vi = corridor_vi();
    let max = build(&vi, &cfg());
    let mean = build_with(&vi, &cfg(), PatchAgg::Mean);
    for (a, b) in max.tiles.iter().zip(&mean.tiles) {
        for (x, y) in a.w.iter().zip(&b.w) {
            assert!(y <= x);
        }
    }
}

#[test]
fn tilings_that_do_not_fit_are_noticed() {
    let vi = corridor_vi();
    assert!(vi_lib::solvers::schur::can_build(&vi, &cfg()));
    assert!(can_solve(&vi, &cfg()));
    let wide = SchurConfig { tile: i32::MAX, ..cfg() };
    assert!(!vi_lib::solvers::schur::can_build(&vi, &wide));
    assert!(!can_solve(&vi, &wide));
}

#[test]
fn the_stored_size_is_what_is_stored() {
    let art = build(&corridor_vi(), &cfg());
    assert_eq!(art.size_bytes(), art.save().len());
    let lists: usize = art.tiles.iter().map(|t| 4 + 4 * t.portals.len() + 8 * t.w.len()).sum();
    assert_eq!(art.size_bytes(), 44 + 12 * art.portals.len() + lists);
}

#[test]
fn a_cell_is_covered_by_all_tiles_whose_domains_hold_it() {
    let art = SchurArtifact {
        tile: 6,
        halo: 3,
        nx: 24,
        ny: 18,
        nt: 12,
        tnx: 4,
        tny: 3,
        portals: Vec::new(),
        tiles: Vec::new(),
    };
    assert_eq!(tiles_covering(&art, 10, 10), (1, 2, 1, 2));
    assert_eq!(tiles_covering(&art, 9, 8), (1, 2, 0, 1));
    assert_eq!(tiles_covering(&art, 0, 0), (0, 0, 0, 0));
    assert_eq!(tiles_covering(&art, 23, 17), (3, 3, 2, 2));
}

/// Six cells in a row, and one action that goes one cell on.
fn strip() -> ValueIterator {
    let mut a = Action::new("on", 0, 0, 0);
    a.state_transitions.push(vec![StateTransition { dix: 1, diy: 0, dit: 0, prob: PROB_BASE as i32 }]);
    ValueIterator {
        states: (0..6).map(|x| State::new(x, 0, 0, true, PROB_BASE)).collect(),
        actions: vec![a],
        cell_num_x: 6,
        cell_num_y: 1,
        cell_num_t: 1,
    }
}

#[test]
fn a_strip_has_a_portal_on_every_line() {
    let art = build(&strip(), &SchurConfig { tile: 2, portal_thetas: 1, spacing: 16 });
    assert_eq!(
        art.portals,
        vec![Portal { ix: 2, iy: 0, it: 0 }, Portal { ix: 4, iy: 0, it: 0 }]
    );
    let edges = |portals: Vec<u32>, w: Vec<u64>| TileEdges { portals, w };
    assert_eq!(
        art.tiles,
        vec![
            edges(vec![0], vec![0]),
            edges(vec![0, 1], vec![0, 2 * PROB_BASE, MAX_COST, 0]),
            edges(vec![1], vec![0]),
        ]
    );
}

#[test]
fn an_artifact_depends_on_the_map_alone() {
    let vi = corridor_vi();
    let mut other = corridor_vi();
    set_goals(&mut other, &[(1.0, 0.7)], 90, 0.12, 45);
    run_reference_to_fixed_point(&mut other);
    assert_eq!(build(&vi, &cfg()), build(&other, &cfg()));
    let d = portal_costs(&other, &build(&vi, &cfg()));
    assert_eq!(d, portal_costs(&other, &build(&other, &cfg())));
}

#[test]
fn tiles_may_be_restored_in_any_order() {
    let vi = corridor_vi();
    let art = build(&vi, &cfg());
    let d = portal_costs(&vi, &art);
    let finals: Vec<(i32, i32, i32)> =
        vi.states.iter().filter(|s| s.final_state).map(|s| (s.ix, s.iy, s.it)).collect();
    let forth: Vec<i32> = (0..art.tiles.len() as i32).collect();
    let back: Vec<i32> = forth.iter().rev().copied().collect();
    let mut a = corridor_vi();
    materialize_many(&mut a, &art, &d, &finals, &forth);
    let mut b = corridor_vi();
    materialize_many(&mut b, &art, &d, &finals, &back);
    for i in 0..a.states.len() {
        assert_eq!(a.states[i].total_cost, b.states[i].total_cost, "@ {i}");
    }
}

#[test]
fn every_way_to_sum_up_patches_ends_at_the_same_values() {
    let mut exact = corridor_vi();
    run_reference_to_fixed_point(&mut exact);
    let vi = corridor_vi();
    let art = build(&vi, &cfg());
    assert_eq!(portal_costs(&vi, &art), portal_costs_agg(&vi, &art, PatchAgg::Max));
    let (mut a, mut b) = (corridor_vi(), corridor_vi());
    assert_eq!(upper_bound_field(&mut a, &art), upper_bound_field_agg(&mut b, &art, PatchAgg::Max));
    assert_eq!(a.states, b.states);
    let mut c = corridor_vi();
    assert!(schur_solve_agg(&mut c, &art, 100_000, &mut NullObserver, PatchAgg::Max).converged);
    let mut d = corridor_vi();
    let whole = schur_solve_observed_agg(&mut d, 100_000, &mut NullObserver, cfg(), PatchAgg::Max);
    assert!(whole.converged);
    for i in 0..exact.states.len() {
        if exact.states[i].total_cost < REACH_THRESH {
            assert_eq!(exact.states[i].total_cost, c.states[i].total_cost);
            assert_eq!(exact.states[i].optimal_action, c.states[i].optimal_action);
            assert_eq!(exact.states[i].total_cost, d.states[i].total_cost);
        }
    }
    let mean = portal_costs_agg(&vi, &build_with(&vi, &cfg(), PatchAgg::Mean), PatchAgg::Mean);
    for (x, y) in mean.iter().zip(&portal_costs(&vi, &art)) {
        assert!(x <= y);
    }
}

/// Ends a solve after a number of rounds.
struct EndAfter(u64, SolveFlow, Vec<u64>);

impl SolveObserver for EndAfter {
    fn due(&mut self, iters: u64) -> bool {
        self.2.push(iters);
        iters >= self.0
    }

    fn boundary(&mut self, _vi: &ValueIterator, _iters: u32, _updates: u64) -> SolveFlow {
        self.1
    }
}

#[test]
fn a_tiled_solve_can_be_ended_at_its_upper_bounds() {
    let vi = corridor_vi();
    let art = build(&vi, &cfg());
    let mut bounds = corridor_vi();
    let updates = upper_bound_field(&mut bounds, &art);
    let mut a = corridor_vi();
    let mut obs = EndAfter(1, SolveFlow::Stop, Vec::new());
    let out = schur_solve_with(&mut a, &art, 100_000, &mut obs);
    assert!(out.stopped && !out.cancelled && !out.converged);
    assert_eq!((out.iters, out.updates), (1, updates));
    assert_eq!(obs.2, vec![1]);
    assert_eq!(a.states, bounds.states);
    let mut obs = EndAfter(3, SolveFlow::Cancel, Vec::new());
    let out = schur_solve_observed(&mut corridor_vi(), 100_000, &mut obs, cfg());
    if out.converged {
        assert!(out.iters <= 3 && !out.cancelled);
    } else {
        assert!(out.cancelled && out.iters == 3);
        assert_eq!(obs.2, vec![1, 2, 3]);
    }
}

#[test]
fn a_field_that_was_solved_before_is_swept_on() {
    let mut vi = corridor_vi();
    let out = schur_solve_observed(&mut vi, 100_000, &mut NullObserver, cfg());
    assert!(out.converged);
    let before = vi.states.clone();
    let again = schur_solve_observed(&mut vi, 100_000, &mut NullObserver, cfg());
    assert!(again.converged && again.updates == 0);
    assert_eq!(before, vi.states);
}

#[test]
fn building_for_the_occasion_is_building_first() {
    let mut a = corridor_vi();
    let whole = schur_solve_observed(&mut a, 100_000, &mut NullObserver, cfg());
    let mut b = corridor_vi();
    let art = build(&b, &cfg());
    let parts = schur_solve_with(&mut b, &art, 100_000, &mut NullObserver);
    assert_eq!(whole, parts);
    assert_eq!(a.states, b.states);
}

#[test]
fn portal_values_bound_their_whole_patches() {
    let mut exact = corridor_vi();
    run_reference_to_fixed_point(&mut exact);
    let vi = corridor_vi();
    let art = build(&vi, &cfg());
    let d = portal_costs(&vi, &art);
    assert_eq!(d.len(), art.portals.len());
    for (p, &v) in art.portals.iter().zip(&d) {
        for (dx, dy, dt) in (0..27).map(|k| (k % 3 - 1, k / 3 % 3 - 1, k / 9 - 1)) {
            let (x, y) = (p.ix + dx, p.iy + dy);
            if x < 0 || x >= vi.cell_num_x || y < 0 || y >= vi.cell_num_y {
                continue;
            }
            let t = (p.it + dt).rem_euclid(vi.cell_num_t);
            let s = &exact.states[to_index_raw(x, y, t, vi.cell_num_x, vi.cell_num_t) as usize];
            assert!(!s.free || s.total_cost <= v);
        }
    }
}
