//! The host side of the solvers that run on a graphics card, with the kernels played by
//! plain loops.
use vi_lib::action::Action;
use vi_lib::params::{MAX_COST, PROB_BASE};
use vi_lib::solvers::frontier2d::frontier2d_solve_observed;
use vi_lib::solvers::gpu::batch::fill_batch;
use vi_lib::solvers::gpu::chunk::{start_chunk, widest_watch, write_chunk};
use vi_lib::solvers::gpu::goal::{write_back, GoalMarks};
use vi_lib::solvers::gpu::jobs::{next_chunk, probs_cap, split_jobs, Job, PROBS_PER_CHUNK};
use vi_lib::solvers::gpu::judge::{
    done_flags, judge_all, judgement_due, patch_starts, Watched, GPU_MAX_PASSES,
};
use vi_lib::solvers::gpu::layout::GpuLayout;
use vi_lib::solvers::gpu::outcomes::GpuTables;
use vi_lib::solvers::gpu::plan::{flatten_outcomes, GpuPlan};
use vi_lib::solvers::gpu::rounds::{blocks, update_threads, GpuRounds, GpuStep};
use vi_lib::solvers::observe::NullObserver;
use vi_lib::solvers::schur::{build, upper_bound_field, PatchAgg, SchurConfig};
use vi_lib::state::State;
use vi_lib::transition::{compute_theta_transitions, Motion};
use vi_lib::value_iterator::{value_iteration_raw, ValueIterator};

/// Cell width of the test maps, in metres.
const RES: f64 = 0.05;

/// A movement: metres to the front, degrees to the left.
type Step = (&'static str, f64, f64, i32);

/// The usual movements.
#[allow(dead_code)]
const STEPS: [Step; 6] = [
    ("forward", 0.3, 0.0, 0),
    ("back", -0.2, 0.0, 1),
    ("right", 0.0, -20.0, 2),
    ("rightfw", 0.2, -20.0, 3),
    ("left", 0.0, 20.0, 4),
    ("leftfw", 0.2, 20.0, 5),
];

/// Movements of one cell at most.
#[allow(dead_code)]
const SMALL_STEPS: [Step; 6] = [
    ("fw", 0.05, 0.0, 0),
    ("back", -0.05, 0.0, 1),
    ("right", 0.0, -30.0, 2),
    ("rightfw", 0.05, -30.0, 3),
    ("left", 0.0, 30.0, 4),
    ("leftfw", 0.05, 30.0, 5),
];

fn motion(fw: f64, rot: f64, it: i32, res: f64, t_res: f64) -> Motion {
    let moves = (0..64)
        .map(|k| {
            let deg = (it as f64 + (k as f64 + 0.5) / 64.0) * t_res;
            let a = deg.to_radians();
            ((fw * a.cos() * 1e9).round() as i64, (fw * a.sin() * 1e9).round() as i64)
        })
        .collect();
    Motion {
        moves,
        rot: (rot * 1e6).round() as i64,
        it,
        xy_res: (res * 1e9).round() as i64,
        t_res: (t_res * 1e6).round() as i64,
    }
}

fn action(step: &Step, nt: i32) -> Action {
    let mut a = Action::new(
        step.0,
        (step.1 * 1e9).round() as i64,
        (step.2 * 1e6).round() as i64,
        step.3,
    );
    let t_res = (360 / nt) as f64;
    for it in 0..nt {
        a.state_transitions.push(compute_theta_transitions(&motion(step.1, step.2, it, RES, t_res)));
    }
    a
}

/// A map with a margin of `margin` metres around obstacles.
fn make_map(w: i32, h: i32, occ: &[i8], steps: &[Step], nt: i32, margin: f64) -> ValueIterator {
    let m = (margin / RES).ceil() as i32;
    let mut states = Vec::new();
    for y in 0..h {
        for x in 0..w {
            let free = occ[(y * w + x) as usize] == 0;
            let mut near = false;
            for v in (y - m).max(0)..=(y + m).min(h - 1) {
                for u in (x - m).max(0)..=(x + m).min(w - 1) {
                    near |= occ[(v * w + u) as usize] != 0;
                }
            }
            let penalty = if near { 30 * PROB_BASE } else { PROB_BASE };
            for t in 0..nt {
                states.push(State::new(x, y, t, free, penalty));
            }
        }
    }
    ValueIterator {
        states,
        actions: steps.iter().map(|s| action(s, nt)).collect(),
        cell_num_x: w,
        cell_num_y: h,
        cell_num_t: nt,
    }
}

/// Marks the states whose cell lies within `radius` metres of a goal and whose heading is
/// within `margin` degrees of `deg`.
#[allow(dead_code)]
fn set_goals(vi: &mut ValueIterator, goals: &[(f64, f64)], deg: i32, radius: f64, margin: i32) {
    let t_res = 360 / vi.cell_num_t;
    for s in vi.states.iter_mut() {
        let (t0, t1) = (s.it * t_res, (s.it + 1) * t_res);
        let other = if deg > 180 { deg - 360 } else { deg + 360 };
        let heading = [deg, other].iter().any(|g| g - margin <= t0 && t1 <= g + margin);
        let place = goals.iter().any(|g| {
            let (x0, y0) = (s.ix as f64 * RES, s.iy as f64 * RES);
            let (x1, y1) = (x0 + RES, y0 + RES);
            (x0 - g.0).powi(2) + (y0 - g.1).powi(2) < radius * radius
                && (x1 - g.0).powi(2) + (y1 - g.1).powi(2) < radius * radius
        });
        s.final_state = s.free && heading && place;
        s.total_cost = if s.final_state { 0 } else { MAX_COST };
        s.optimal_action = None;
        s.local_penalty = 0;
    }
}

/// Sweeps a field until nothing moves any more.
#[allow(dead_code)]
fn run_reference_to_fixed_point(vi: &mut ValueIterator) {
    let (nx, ny, nt) = (vi.cell_num_x, vi.cell_num_y, vi.cell_num_t);
    for _ in 0..100_000 {
        let mut moved = false;
        for i in 0..vi.states.len() {
            moved |= value_iteration_raw(&mut vi.states, &vi.actions, i, nx, ny, nt) > 0;
        }
        if !moved {
            return;
        }
    }
    panic!("the field does not settle");
}

fn rooms() -> ValueIterator {
    let (w, h) = (24i32, 18i32);
    let mut occ = vec![0i8; (w * h) as usize];
    for y in 0..h {
        if !(8..10).contains(&y) {
            occ[(y * w + 12) as usize] = 100;
        }
    }
    let mut vi = make_map(w, h, &occ, &SMALL_STEPS, 12, 0.05);
    set_goals(&mut vi, &[(0.15, 0.15)], 0, 0.12, 45);
    vi
}

/// Cost of an action, read from the tables alone.
fn table_cost(l: &GpuLayout, t: &GpuTables, vals: &[u64], a: usize, it: usize, col: usize) -> u64 {
    let row = a * l.nt as usize + it;
    let mut sum = 0u64;
    for k in t.pc_start[row]..t.pc_start[row + 1] {
        let j = (col as i64 + t.pc_off[k as usize]) as usize;
        if t.frees[j] == 0 {
            return MAX_COST;
        }
        let step = vals[j].wrapping_add(t.pens[j] as u64);
        sum = sum.wrapping_add(step.wrapping_mul(t.pc_prob[k as usize] as u64));
    }
    sum >> 18
}

#[test]
fn rounds_over_the_tables_match_the_planar_solver() {
    let mut vi = rooms();
    let l = GpuLayout::new(&vi).unwrap();
    let t = match GpuTables::new(&vi, &l) {
        Ok(t) => t,
        Err(e) => panic!("{e:?}"),
    };
    let marks = GoalMarks::new(&vi, &l);
    let (cols, nt) = (l.n_cols(), l.nt as usize);
    let mut vals: Vec<u64> =
        marks.fins.iter().map(|&f| if f == 1 { 0 } else { MAX_COST }).collect();
    let mut changed = marks.chg0.clone();
    let mut cands: Vec<u32> = Vec::new();
    let mut r = GpuRounds::new(changed.len() as u32, 100_000);
    loop {
        match r.next {
            GpuStep::Dilate { .. } => {
                let mut flags = vec![false; cols];
                for &c in &changed {
                    for dy in -l.my..=l.my {
                        for dx in -l.mx..=l.mx {
                            let p = c as i32 + dy * l.nx_pad() + dx;
                            if p >= 0 && (p as usize) < cols && t.col_free[p as usize] == 1 {
                                flags[p as usize] = true;
                            }
                        }
                    }
                }
                cands = (0..cols as u32).filter(|&c| flags[c as usize]).collect();
                r.dilated(cands.len() as u32);
            }
            GpuStep::Update { .. } => {
                changed.clear();
                for &c in &cands {
                    let mut moved = false;
                    for it in 0..nt {
                        let j = it * cols + c as usize;
                        if t.frees[j] == 0 || marks.fins[j] == 1 {
                            continue;
                        }
                        let best = (0..vi.actions.len())
                            .map(|a| table_cost(&l, &t, &vals, a, it, c as usize))
                            .min()
                            .unwrap();
                        moved |= best != vals[j];
                        vals[j] = best;
                    }
                    if moved {
                        changed.push(c);
                    }
                }
                r.updated(changed.len() as u32);
            }
            GpuStep::Done { converged } => {
                assert!(converged);
                break;
            }
        }
    }
    let opt: Vec<i8> = (0..vals.len())
        .map(|j| {
            let (it, c) = (j / cols, j % cols);
            if t.frees[j] == 0 || marks.fins[j] == 1 {
                return -1;
            }
            let q: Vec<u64> = (0..vi.actions.len())
                .map(|a| table_cost(&l, &t, &vals, a, it, c))
                .collect();
            let best = *q.iter().min().unwrap();
            q.iter().position(|&v| v == best).unwrap() as i8
        })
        .collect();
    write_back(&mut vi, &l, &vals, &opt);
    let mut want = rooms();
    assert!(frontier2d_solve_observed(&mut want, 100_000, &mut NullObserver).converged);
    for (a, b) in want.states.iter().zip(&vi.states) {
        assert_eq!(a.total_cost, b.total_cost);
        if a.total_cost < MAX_COST {
            assert_eq!(a.optimal_action, b.optimal_action);
        }
    }
}

#[test]
fn a_cost_that_does_not_fit_is_refused() {
    let mut vi = rooms();
    vi.states[7].local_penalty = 1 << 33;
    let l = GpuLayout::new(&vi).unwrap();
    match GpuTables::new(&vi, &l) {
        Ok(_) => panic!("too large a cost was accepted"),
        Err(e) => assert_eq!(e.penalty, (1u128 << 33) + vi.states[7].penalty as u128),
    }
}

#[test]
fn rounds_end_when_nothing_changes_or_too_many_were_needed() {
    assert_eq!(GpuRounds::new(0, 10).next, GpuStep::Done { converged: true });
    assert_eq!(GpuRounds::new(3, 0).next, GpuStep::Done { converged: false });
    let mut r = GpuRounds::new(3, 1);
    r.dilated(5);
    assert_eq!(r.next, GpuStep::Update { candidates: 5 });
    r.updated(2);
    assert_eq!(r.next, GpuStep::Done { converged: false });
    let mut r = GpuRounds::new(3, 1);
    r.dilated(0);
    assert_eq!((r.rounds, r.next), (1, GpuStep::Done { converged: true }));
    assert_eq!((blocks(0), blocks(1), blocks(256), blocks(257)), (0, 1, 1, 2));
    assert_eq!(update_threads(7, 60), 420);
}

#[test]
fn problems_are_cut_to_fit() {
    assert_eq!(probs_cap(0), PROBS_PER_CHUNK);
    assert_eq!(probs_cap(1 << 18), PROBS_PER_CHUNK);
    assert_eq!(probs_cap(1 << 20), 256);
    assert_eq!(probs_cap(1 << 30), 1);
    let jobs = split_jobs(&vec![3, 0, 5], 2);
    let want = vec![
        Job { tile: 0, first: 0, count: 2 },
        Job { tile: 0, first: 2, count: 1 },
        Job { tile: 2, first: 0, count: 2 },
        Job { tile: 2, first: 2, count: 2 },
        Job { tile: 2, first: 4, count: 1 },
    ];
    assert_eq!(jobs, want);
    assert_eq!(next_chunk(&jobs, 0, 4), (2, 3));
    assert_eq!(next_chunk(&jobs, 2, 4), (4, 4));
    assert_eq!(next_chunk(&jobs, 4, 4), (5, 1));
}

#[test]
fn outcomes_are_laid_out_in_a_row() {
    let vi = rooms();
    let (off, dat) = flatten_outcomes(&vi.actions, 12);
    assert_eq!(off.len(), 6 * 12 + 1);
    let row = 3 * 12 + 5;
    let first = off[row] as usize * 4;
    let tr = vi.actions[3].state_transitions[5][0];
    assert_eq!(dat[first..first + 4].to_vec(), vec![tr.dix, tr.diy, tr.dit, tr.prob]);
    assert_eq!(off[72] as usize * 4, dat.len());
}

#[test]
fn values_are_judged_every_few_passes() {
    let due: Vec<u32> = (0..12).filter(|&p| judgement_due(p)).collect();
    assert_eq!(due, vec![3, 7, 11]);
    assert!(judgement_due(GPU_MAX_PASSES - 1));
}

#[test]
fn a_problem_is_done_when_its_values_stay() {
    let mut w = Watched::new(4, 1, 3);
    assert_eq!(w.prev, vec![MAX_COST, 0, 0, MAX_COST]);
    let out = vec![50, 0, 2, MAX_COST];
    w.judge(&out, 0, 99, 3);
    assert_eq!((w.prev.clone(), w.stable, w.done), (vec![50, 0, 0, MAX_COST], 0, false));
    w.judge(&out, 0, 99, 7);
    assert_eq!((w.stable, w.done), (1, false));
    w.judge(&out, 0, 99, 11);
    assert!(w.done);
    let mut early = Watched::new(1, 0, 1);
    early.judge(&vec![0], 0, 0, 1);
    assert_eq!(early.stable, 0);
}

#[test]
fn a_chunk_is_done_when_all_its_problems_are() {
    let mut probs = vec![Watched::new(1, 0, 1), Watched::new(1, 0, 0)];
    let out = vec![0, MAX_COST];
    let v = judge_all(&mut probs, &out, 1, &vec![0, 9], 3);
    assert!(!v.all_done && !v.changed);
    let v = judge_all(&mut probs, &out, 1, &vec![0, 9], 7);
    assert!(!v.all_done && v.changed);
    assert_eq!(done_flags(&probs), vec![1, 0]);
    judge_all(&mut probs, &out, 1, &vec![0, 2], 11);
    let v = judge_all(&mut probs, &out, 1, &vec![0, 2], 15);
    assert!(v.all_done && v.changed);
}

/// Solves every problem of a plan by plain passes, as the kernels do.
fn run_plan(vi: &ValueIterator, cfg: &SchurConfig) -> GpuPlan {
    let mut plan = GpuPlan::new(vi, cfg);
    let (off, dat) = flatten_outcomes(&vi.actions, vi.cell_num_t);
    let side = plan.art.side();
    let nt = vi.cell_num_t;
    let dom = (side * side * nt) as usize;
    let cells = (side * side) as usize;
    let mut lo = 0usize;
    while lo < plan.jobs.len() {
        let (hi, n) = next_chunk(&plan.jobs, lo, plan.cap);
        let b = fill_batch(&plan, vi, lo, hi);
        let stride = widest_watch(&plan, lo, hi);
        let mut probs = start_chunk(&plan, lo, hi);
        let mut values = vec![MAX_COST; n * dom];
        let mut pinned = vec![false; n * dom];
        for p in 0..n {
            for k in b.pin_off[p]..b.pin_off[p + 1] {
                values[p * dom + b.pin_states[k as usize] as usize] = 0;
                pinned[p * dom + b.pin_states[k as usize] as usize] = true;
            }
        }
        let mut out = vec![MAX_COST; n * stride];
        for pass in 0..GPU_MAX_PASSES {
            let mut worst = vec![0u64; n];
            for p in 0..n {
                if probs[p].done {
                    continue;
                }
                let slot = b.prob_slot[p] as usize;
                for i in 0..dom {
                    let (c, it) = (i / nt as usize, i % nt as usize);
                    if pinned[p * dom + i] || b.frees[slot * cells + c] == 0 {
                        continue;
                    }
                    let (x, y) = (c as i32 % side, c as i32 / side);
                    let mut best = MAX_COST;
                    for a in 0..vi.actions.len() {
                        let row = a * nt as usize + it;
                        let mut sum = 0u64;
                        let mut lands = true;
                        for k in off[row]..off[row + 1] {
                            let q = &dat[k as usize * 4..k as usize * 4 + 4];
                            let (u, v) = (x + q[0], y + q[1]);
                            let d = (v * side + u) as usize;
                            if u < 0 || u >= side || v < 0 || v >= side
                                || b.frees[slot * cells + d] == 0
                            {
                                lands = false;
                                break;
                            }
                            let h = ((q[2] + nt) % nt) as usize;
                            let val = values[p * dom + d * nt as usize + h];
                            if val >= MAX_COST {
                                lands = false;
                                break;
                            }
                            sum += (val + b.pens[slot * cells + d]) * q[3] as u64;
                        }
                        if lands {
                            best = best.min(sum >> 18);
                        }
                    }
                    let old = values[p * dom + i];
                    if best < old {
                        worst[p] = worst[p].max(old - best);
                        values[p * dom + i] = best;
                    }
                }
            }
            if !judgement_due(pass) {
                continue;
            }
            for p in 0..n {
                let slot = b.prob_slot[p] as usize;
                let (s, e) = (b.watch_off[slot] as usize, b.watch_off[slot + 1] as usize);
                for (k, &i) in b.watch_states[s..e].iter().enumerate() {
                    out[p * stride + k] = values[p * dom + i as usize];
                }
            }
            if judge_all(&mut probs, &out, stride, &worst, pass).all_done {
                break;
            }
        }
        write_chunk(
            &mut plan.art,
            &plan.patches,
            &plan.jobs,
            lo,
            hi,
            &out,
            stride,
            PatchAgg::Max,
        );
        lo = hi;
    }
    plan
}

#[test]
fn crossing_costs_from_the_kernels_give_a_bound() {
    let mut exact = rooms();
    run_reference_to_fixed_point(&mut exact);
    let mut vi = rooms();
    let cfg = SchurConfig { tile: 6, portal_thetas: 4, spacing: 16 };
    let cpu = build(&vi, &cfg);
    let plan = run_plan(&vi, &cfg);
    assert_eq!(cpu.portals, plan.art.portals);
    assert_eq!((cpu.tile, cpu.halo), (plan.art.tile, plan.art.halo));
    assert_eq!((cpu.nx, cpu.ny, cpu.nt), (plan.art.nx, plan.art.ny, plan.art.nt));
    assert_eq!((cpu.tnx, cpu.tny), (plan.art.tnx, plan.art.tny));
    for (a, b) in cpu.tiles.iter().zip(&plan.art.tiles) {
        assert_eq!(a.portals, b.portals);
        let n = b.portals.len();
        assert_eq!(b.w.len(), n * n);
        for i in 0..n {
            assert_eq!(b.w[i * n + i], 0);
        }
    }
    upper_bound_field(&mut vi, &plan.art);
    for (a, b) in exact.states.iter().zip(&vi.states) {
        assert!(b.total_cost >= a.total_cost);
    }
    for (c, g) in cpu.tiles.iter().zip(&plan.art.tiles) {
        assert_eq!(c.portals, g.portals);
        assert_eq!(c.w.len(), g.w.len());
    }
    assert_eq!(patch_starts(&vec![vec![1, 2], Vec::new(), vec![3]]), vec![0, 2, 2, 3]);
}
