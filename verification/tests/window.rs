//! The local window.
use vi_lib::action::Action;
use vi_lib::beam::{cast_scan, sample_beam, Ray, Track};
use vi_lib::local::{dist_linf, Beam, LocalShape, LocalShapeConfig, ValueIteratorLocal};
use vi_lib::params::{MAX_COST, PROB_BASE, PROB_BASE_BIT};
use vi_lib::state::State;
use vi_lib::transition::{compute_theta_transitions, Motion};
use vi_lib::value_iterator::{value_iteration_raw, ValueIterator};

/// Cell width of the test maps, in metres.
const RES: f64 = 0.05;

/// A movement: metres to the front, degrees to the left.
type Step = (&'static str, f64, f64, i32);

/// The usual movements.
#[allow(dead_code)]
const STEPS: [Step; 6] = [
    ("forward", 0.3, 0.0, 0),
    ("back", -0.2, 0.0, 1),
    ("right", 0.0, -20.0, 2),
    ("rightfw", 0.2, -20.0, 3),
    ("left", 0.0, 20.0, 4),
    ("leftfw", 0.2, 20.0, 5),
];

/// Movements of one cell at most.
#[allow(dead_code)]
const SMALL_STEPS: [Step; 6] = [
    ("fw", 0.05, 0.0, 0),
    ("back", -0.05, 0.0, 1),
    ("right", 0.0, -30.0, 2),
    ("rightfw", 0.05, -30.0, 3),
    ("left", 0.0, 30.0, 4),
    ("leftfw", 0.05, 30.0, 5),
];

fn motion(fw: f64, rot: f64, it: i32, res: f64, t_res: f64) -> Motion {
    let moves = (0..64)
        .map(|k| {
            let deg = (it as f64 + (k as f64 + 0.5) / 64.0) * t_res;
            let a = deg.to_radians();
            ((fw * a.cos() * 1e9).round() as i64, (fw * a.sin() * 1e9).round() as i64)
        })
        .collect();
    Motion {
        moves,
        rot: (rot * 1e6).round() as i64,
        it,
        xy_res: (res * 1e9).round() as i64,
        t_res: (t_res * 1e6).round() as i64,
    }
}

fn action(step: &Step, nt: i32) -> Action {
    let mut a = Action::new(
        step.0,
        (step.1 * 1e9).round() as i64,
        (step.2 * 1e6).round() as i64,
        step.3,
    );
    let t_res = (360 / nt) as f64;
    for it in 0..nt {
        a.state_transitions.push(compute_theta_transitions(&motion(step.1, step.2, it, RES, t_res)));
    }
    a
}

/// A map with a margin of `margin` metres around obstacles.
fn make_map(w: i32, h: i32, occ: &[i8], steps: &[Step], nt: i32, margin: f64) -> ValueIterator {
    let m = (margin / RES).ceil() as i32;
    let mut states = Vec::new();
    for y in 0..h {
        for x in 0..w {
            let free = occ[(y * w + x) as usize] == 0;
            let mut near = false;
            for v in (y - m).max(0)..=(y + m).min(h - 1) {
                for u in (x - m).max(0)..=(x + m).min(w - 1) {
                    near |= occ[(v * w + u) as usize] != 0;
                }
            }
            let penalty = if near { 30 * PROB_BASE } else { PROB_BASE };
            for t in 0..nt {
                states.push(State::new(x, y, t, free, penalty));
            }
        }
    }
    ValueIterator {
        states,
        actions: steps.iter().map(|s| action(s, nt)).collect(),
        cell_num_x: w,
        cell_num_y: h,
        cell_num_t: nt,
    }
}

/// Marks the states whose cell lies within `radius` metres of a goal and whose heading is
/// within `margin` degrees of `deg`.
#[allow(dead_code)]
fn set_goals(vi: &mut ValueIterator, goals: &[(f64, f64)], deg: i32, radius: f64, margin: i32) {
    let t_res = 360 / vi.cell_num_t;
    for s in vi.states.iter_mut() {
        let (t0, t1) = (s.it * t_res, (s.it + 1) * t_res);
        let other = if deg > 180 { deg - 360 } else { deg + 360 };
        let heading = [deg, other].iter().any(|g| g - margin <= t0 && t1 <= g + margin);
        let place = goals.iter().any(|g| {
            let (x0, y0) = (s.ix as f64 * RES, s.iy as f64 * RES);
            let (x1, y1) = (x0 + RES, y0 + RES);
            (x0 - g.0).powi(2) + (y0 - g.1).powi(2) < radius * radius
                && (x1 - g.0).powi(2) + (y1 - g.1).powi(2) < radius * radius
        });
        s.final_state = s.free && heading && place;
        s.total_cost = if s.final_state { 0 } else { MAX_COST };
        s.optimal_action = None;
        s.local_penalty = 0;
    }
}

/// Sweeps a field until nothing moves any more.
#[allow(dead_code)]
fn run_reference_to_fixed_point(vi: &mut ValueIterator) {
    let (nx, ny, nt) = (vi.cell_num_x, vi.cell_num_y, vi.cell_num_t);
    for _ in 0..100_000 {
        let mut moved = false;
        for i in 0..vi.states.len() {
            moved |= value_iteration_raw(&mut vi.states, &vi.actions, i, nx, ny, nt) > 0;
        }
        if !moved {
            return;
        }
    }
    panic!("the field does not settle");
}

const UM: f64 = 1e6;

fn um(m: f64) -> i64 {
    (m * UM).round() as i64
}

fn local(w: i32, h: i32, occ: &[i8], nt: i32, margin: f64) -> ValueIteratorLocal {
    let base = make_map(w, h, occ, &STEPS[..1], nt, margin);
    ValueIteratorLocal::new(base, um(RES))
}

fn place(l: &mut ValueIteratorLocal, x: f64, y: f64, yaw: f64) {
    l.set_local_window(um(x), um(y), (yaw.cos() * 1e9) as i64, (yaw.sin() * 1e9) as i64);
}

fn ray(yaw: f64, r: f64) -> Ray {
    Ray { cos: (yaw.cos() * 1e9) as i64, sin: (yaw.sin() * 1e9) as i64, range: um(r) }
}

/// The cells along one beam, and its end.
fn beam(x: f64, y: f64, yaw: f64, r: f64) -> Beam {
    sample_beam(&ray(yaw, r), um(x), um(y), um(RES))
}

fn free(w: i32, h: i32) -> Vec<i8> {
    vec![0; (w * h) as usize]
}

#[test]
fn set_map_initializes_local_window() {
    let l = local(60, 60, &free(60, 60), 60, 0.2);
    assert_eq!(l.local_ixy_range, 20);
    assert_eq!(l.local_ix_max, 40);
    assert_eq!(l.local_iy_max, 40);
}

#[test]
fn another_map_brings_the_usual_window_back() {
    let mut l = local(60, 60, &free(60, 60), 4, 0.2);
    l.set_local_xy_range(um(2.0));
    l.ensure_obstacle_dist();
    assert_eq!(l.local_ixy_range, 40);
    assert_eq!(l.obstacle_dist.len(), 3600);
    let other = make_map(20, 30, &free(20, 30), &STEPS[..1], 4, 0.2);
    l.set_map_with_occupancy_grid(other, um(2.0 * RES));
    assert_eq!(l.local_ixy_range, 10);
    assert_eq!(l.local_ix_max, 20);
    assert!(l.obstacle_dist.is_empty());
    assert_eq!(l.base.cell_num_y, 30);
}

#[test]
fn a_fresh_window_that_is_wider_than_its_map_can_be_asked() {
    let base = make_map(20, 30, &free(20, 30), &STEPS[..1], 4, 0.2);
    let l = ValueIteratorLocal::new(base, um(RES));
    assert_eq!(l.local_ix_max, 40);
    assert!(l.in_local_area(0, 0) && l.in_local_area(40, 40));
    assert!(!l.in_local_area(41, 0) && !l.in_local_area(0, -1));
}

#[test]
fn windows_work_on_wide_cells() {
    let base = make_map(6, 6, &free(6, 6), &STEPS[..1], 4, 0.0);
    let mut l = ValueIteratorLocal::new(base, um(2.5));
    assert_eq!(l.local_ixy_range, 0);
    l.set_local_xy_range(um(5.0));
    l.set_local_window(um(8.0), um(8.0), 1_000_000_000, 0);
    assert!(l.in_local_area(5, 5));
    assert!(!l.in_local_area(0, 5));
}

#[test]
fn set_local_xy_range_resizes_window() {
    let mut l = local(120, 120, &free(120, 120), 60, 0.2);
    l.set_local_xy_range(um(2.0));
    assert_eq!(l.local_ixy_range, 40);
    place(&mut l, 2.5, 2.5, 0.0);
    assert_eq!(l.local_ix_min, 10);
    assert_eq!(l.local_ix_max, 90);
}

#[test]
fn set_local_window_clamps() {
    let mut l = local(60, 60, &free(60, 60), 60, 0.2);
    place(&mut l, 0.0, 0.0, 0.0);
    assert_eq!(l.local_ix_min, 0);
    assert_eq!(l.local_iy_min, 0);
    assert_eq!(l.local_ix_max, 20);
    assert_eq!(l.local_iy_max, 20);
}

#[test]
fn set_local_cost_sets_penalty_band() {
    let mut l = local(60, 60, &free(60, 60), 60, 0.2);
    l.set_local_cost(&vec![beam(0.0, 0.0, 0.0, 0.5)]);
    let hit = l.base.to_index(10, 0, 0) as usize;
    assert_eq!(l.base.states[hit].local_penalty, 2048u64 << PROB_BASE_BIT);
}

#[test]
fn set_local_cost_attenuated_scales_and_clamps() {
    let mut l = local(60, 60, &free(60, 60), 60, 0.2);
    let beams = vec![beam(0.0, 0.0, 0.0, 0.5)];
    let hit = l.base.to_index(10, 0, 0) as usize;
    l.set_local_cost_attenuated(&beams, 2);
    assert_eq!(l.base.states[hit].local_penalty, 512u64 << PROB_BASE_BIT);
    l.set_local_cost_attenuated(&beams, 99);
    assert_eq!(l.base.states[hit].local_penalty, 1u64 << PROB_BASE_BIT);
}

#[test]
fn beams_halve_costs_where_they_pass() {
    let mut l = local(60, 60, &free(60, 60), 4, 0.2);
    let i = l.base.to_index(5, 0, 0) as usize;
    l.base.states[i].local_penalty = 100;
    l.set_local_cost(&vec![Beam { passed: vec![(5, 0), (5, 0)], hit: (30, 30) }]);
    assert_eq!(l.base.states[i].local_penalty, 25);
}

#[test]
fn clear_map_from_scan_opens_only_what_the_beam_passed_through() {
    let mut occ = free(60, 60);
    for ix in 4..=12 {
        occ[ix] = 100;
    }
    occ[20] = 100;
    let mut l = local(60, 60, &occ, 60, 0.2);
    let at: Vec<usize> = (0..=20).map(|ix| l.base.to_index(ix, 0, 0) as usize).collect();
    let margin = at[13];
    assert!(!l.base.states[at[6]].free);
    assert!(l.base.states[margin].penalty > PROB_BASE);
    l.set_local_cost(&vec![beam(0.0, 0.0, 0.0, 1.0)]);
    l.clear_map_from_scan(&vec![ray(0.0, 1.0)], 0, 0);
    for ix in 0..=18 {
        assert!(l.base.states[at[ix]].free, "ix={ix}");
    }
    assert_eq!(l.base.states[margin].penalty, PROB_BASE);
    assert!(!l.base.states[at[20]].free);
}

#[test]
fn inflate_by_sigma_bands_outside_static_margin() {
    let mut occ = free(60, 60);
    occ[30 * 60 + 30] = 100;
    let mut l = local(60, 60, &occ, 4, 0.1);
    place(&mut l, 1.5, 1.5, 0.0);
    let pen_at = |l: &ValueIteratorLocal, ix, iy| {
        l.base.states[l.base.to_index(ix, iy, 0) as usize].local_penalty
    };
    l.inflate_by_sigma(2, 3, 30 * PROB_BASE);
    assert_eq!(pen_at(&l, 32, 30), 0);
    assert_eq!(pen_at(&l, 34, 30), 30 * PROB_BASE);
    assert_eq!(pen_at(&l, 36, 30), 0);
    let idx = l.base.to_index(36, 30, 0) as usize;
    l.base.states[idx].local_penalty = u64::MAX;
    l.inflate_by_sigma(2, 3, 30 * PROB_BASE);
    assert_eq!(l.base.states[idx].local_penalty, u64::MAX);
    let before = l.base.states.clone();
    l.inflate_by_sigma(2, 0, 99);
    assert_eq!(before, l.base.states);
}

#[test]
fn distances_count_sides_and_corners_alike() {
    let mut walls = vec![false; 7 * 5];
    walls[2 * 7 + 1] = true;
    let d = dist_linf(7, 5, &walls);
    for y in 0..5i32 {
        for x in 0..7i32 {
            let want = (x - 1).abs().max((y - 2).abs()) as u16;
            assert_eq!(d[(y * 7 + x) as usize], want);
        }
    }
    assert!(dist_linf(3, 2, &vec![false; 6]).iter().all(|&v| v == u16::MAX));
    assert!(dist_linf(0, 0, &Vec::new()).is_empty());
    assert!(dist_linf(-3, 2, &Vec::new()).is_empty());
    assert!(dist_linf(2, -1, &Vec::new()).is_empty());
}

#[test]
fn shapes_have_names() {
    assert_eq!(LocalShape::from_name("square"), Some(LocalShape::Square));
    assert_eq!(LocalShape::from_name("circle"), Some(LocalShape::Circle));
    assert_eq!(LocalShape::from_name("ellipse"), Some(LocalShape::Ellipse));
    assert_eq!(LocalShape::from_name("capsule"), Some(LocalShape::Capsule));
    assert_eq!(LocalShape::from_name("Square"), None);
    assert_eq!(LocalShape::from_name(""), None);
    assert_eq!(LocalShape::default(), LocalShape::Square);
    assert!(!LocalShape::Square.oriented() && LocalShape::Circle.oriented());
    assert!(!LocalShape::Circle.dynamic() && LocalShape::Capsule.dynamic());
}

#[test]
fn shapes_mask_the_window() {
    let mut l = local(200, 200, &free(200, 200), 4, 0.1);
    assert_eq!(l.local_ixy_range, 20);
    place(&mut l, 5.0, 5.0, 0.0);
    assert_eq!((l.local_ix_min, l.local_ix_max), (80, 120));
    assert!(l.in_local_area(120, 120));

    l.set_local_shape(LocalShapeConfig {
        range: um(2.0),
        lat: um(0.5),
        ..LocalShapeConfig::default()
    });
    place(&mut l, 5.0, 5.0, 0.0);
    assert_eq!((l.local_ix_min, l.local_ix_max), (60, 140));
    assert_eq!((l.local_iy_min, l.local_iy_max), (90, 110));
    assert_eq!(l.local_ixy_range, 40);

    l.set_local_shape(LocalShapeConfig {
        shape: LocalShape::Circle,
        range: um(1.0),
        ..LocalShapeConfig::default()
    });
    place(&mut l, 5.0, 5.0, 0.0);
    assert_eq!((l.local_ix_min, l.local_ix_max), (80, 120));
    assert!(!l.in_local_area(120, 120));
    assert!(l.in_local_area(119, 100));
    assert!(l.in_local_area(100, 119));
}

#[test]
fn dynamic_shapes_stretch_toward_travel_and_are_rate_limited() {
    for shape in [LocalShape::Ellipse, LocalShape::Capsule] {
        let mut l = local(400, 400, &free(400, 400), 4, 0.1);
        let cfg = LocalShapeConfig {
            shape,
            range: um(1.0),
            lat: um(0.5),
            ratio_max: 2_000_000,
            slew: um(0.05),
            fw_ref: um(0.03),
        };
        l.set_local_shape(cfg);
        assert_eq!(l.local_ixy_range, 40, "{shape:?}");
        assert_eq!(cfg.bbox_cells(um(RES)), 40);

        place(&mut l, 5.0, 5.0, 0.0);
        place(&mut l, 5.0 + RES * 0.2, 5.0, 0.0);
        assert_eq!(l.footprint.a_fwd, l.footprint.a_bwd, "{shape:?}");

        let (mut x, mut prev) = (5.0, l.footprint.a_fwd);
        for _ in 0..40 {
            x += 0.03;
            place(&mut l, x, 5.0, 0.0);
            let now = l.footprint.a_fwd;
            assert!((now - prev).abs() <= cfg.slew, "{shape:?}");
            assert_eq!(l.footprint.a_fwd + l.footprint.a_bwd, 2 * cfg.range, "{shape:?}");
            prev = now;
        }
        let fwd = l.footprint.a_fwd;
        assert!(fwd > cfg.range, "{shape:?}");
        assert!(fwd <= um(1.5), "{shape:?}");
        place(&mut l, 5.0, 5.0, 0.0);
        let ahead = (0..40).filter(|d| l.in_local_area(100 + d, 100)).count();
        let behind = (0..40).filter(|d| l.in_local_area(100 - d, 100)).count();
        assert!(ahead > behind, "{shape:?}");

        for _ in 0..80 {
            x -= 0.03;
            place(&mut l, x, 5.0, 0.0);
        }
        assert!(l.footprint.a_bwd > l.footprint.a_fwd, "{shape:?}");
    }
}

#[test]
fn capsule_keeps_its_width_at_the_leading_edge() {
    let width_of = |shape| {
        let mut l = local(400, 400, &free(400, 400), 4, 0.1);
        l.set_local_shape(LocalShapeConfig {
            shape,
            range: um(1.0),
            lat: um(0.5),
            ..LocalShapeConfig::default()
        });
        place(&mut l, 5.0, 5.0, 0.0);
        (0..20).filter(|d| l.in_local_area(115, 100 + d)).count()
    };
    assert!(width_of(LocalShape::Capsule) > width_of(LocalShape::Ellipse));
}

#[test]
fn the_shortest_half_axis_counts_the_stretching() {
    let mut cfg = LocalShapeConfig {
        shape: LocalShape::Ellipse,
        range: um(1.0),
        lat: um(0.8),
        ratio_max: 2_000_000,
        slew: 0,
        fw_ref: 0,
    };
    assert_eq!(cfg.min_radius(), um(0.5));
    cfg.shape = LocalShape::Circle;
    assert_eq!(cfg.min_radius(), um(0.8));
    cfg.lat = 0;
    assert_eq!((cfg.min_radius(), cfg.lat()), (um(1.0), um(1.0)));
}

#[test]
fn local_loop_runs_value_iteration_in_window() {
    let mut base = make_map(60, 60, &free(60, 60), &[STEPS[0], STEPS[4]], 60, 0.2);
    set_goals(&mut base, &[(0.5, 0.5)], 0, 0.2, 10);
    let mut l = ValueIteratorLocal::new(base, um(RES));
    l.set_local_shape(LocalShapeConfig::default());
    place(&mut l, 0.5, 0.5, 0.0);
    for _ in 0..50 {
        l.local_value_iteration_loop();
    }
    let reachable = (l.local_ix_min..=l.local_ix_max).any(|x| {
        (l.local_iy_min..=l.local_iy_max).any(|y| {
            let s = &l.base.states[l.base.to_index(x, y, 0) as usize];
            !s.final_state && s.total_cost < MAX_COST
        })
    });
    assert!(reachable);
    let outside = &l.base.states[l.base.to_index(59, 59, 0) as usize];
    assert_eq!(outside.total_cost, MAX_COST);
}

#[test]
fn beams_pass_a_cell_at_every_tenth_of_their_way() {
    let b = beam(0.0, 0.0, 0.0, 0.5);
    assert_eq!(b.passed, (1..10).map(|k| (k, 0)).collect::<Vec<_>>());
    assert_eq!(b.hit, (10, 0));
    let back = sample_beam(&Ray { cos: -1_000_000_000, sin: 0, range: 100 }, 0, 0, 50);
    assert_eq!(back.passed[0], (-1, 0));
    assert_eq!(back.hit, (-2, 0));
}

fn map_with_wall() -> Vec<i8> {
    let mut occ = free(10, 10);
    for y in 0..10 {
        occ[y * 10 + 8] = 100;
    }
    occ
}

fn from_the_middle(back: i64) -> Track {
    Track { x: 250_000, y: 250_000, two_steps: 50_000, back, res: 50_000 }
}

#[test]
fn an_ideal_laser_sees_the_first_wall() {
    let all = [0.0, 90.0, 180.0, 0.0];
    let rays: Vec<Ray> = all
        .iter()
        .zip([1.0, 1.0, 1.0, 0.1])
        .map(|(d, r): (&f64, f64)| ray(d.to_radians(), r))
        .collect();
    let seen = cast_scan(&map_with_wall(), 10, 10, &rays, &from_the_middle(0));
    assert_eq!(seen, vec![Some(6), None, None, None]);
}

#[test]
fn a_beam_stops_before_its_last_step() {
    let at = |range: i64| {
        let r = Ray { cos: 1_000_000_000, sin: 0, range };
        cast_scan(&map_with_wall(), 10, 10, &vec![r], &from_the_middle(0))
    };
    assert_eq!(at(150_001), vec![Some(6)]);
    assert_eq!(at(150_000), vec![None]);
}

#[test]
fn a_scan_of_the_map_itself_opens_nothing() {
    let occ = map_with_wall();
    let full: Vec<Ray> = (0..36).map(|k| ray((k as f64 * 10.0).to_radians(), 1.0)).collect();
    let seen = cast_scan(&occ, 10, 10, &full, &from_the_middle(0));
    assert!(seen.iter().any(|s| s.is_some()));
    let rays: Vec<Ray> = full
        .iter()
        .zip(&seen)
        .map(|(r, s)| Ray { range: s.map_or(0, |k| k * 25_000), ..*r })
        .collect();
    let mut l = local(10, 10, &occ, 4, 0.0);
    let before: Vec<bool> = l.base.states.iter().map(|s| s.free).collect();
    l.clear_map_from_scan(&rays, 250_000, 250_000);
    let after: Vec<bool> = l.base.states.iter().map(|s| s.free).collect();
    assert_eq!(before, after);
}
