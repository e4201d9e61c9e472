//! States, costs and outcomes of actions.
use vi_lib::action::{Action, StateTransition};
use vi_lib::belief_model::BeliefModel;
use vi_lib::grid::to_index_raw;
use vi_lib::params::{MAX_COST, PROB_BASE, PROB_BASE_BIT, REACH_THRESH};
use vi_lib::state::State;
use vi_lib::transition::{
    cell_delta, compute_theta_transitions, no_noise_state_transition, Motion,
};
use vi_lib::value_iterator::{action_cost_raw, value_iteration_raw};

const NM: f64 = 1e9;
const UDEG: f64 = 1e6;

fn nm(m: f64) -> i64 {
    (m * NM).round() as i64
}

fn udeg(d: f64) -> i64 {
    (d * UDEG).round() as i64
}

#[test]
fn constants_match_original() {
    assert_eq!(PROB_BASE_BIT, 18);
    assert_eq!(PROB_BASE, 262_144);
    assert_eq!(MAX_COST, 262_144_000_000_000);
}

#[test]
fn reached_values_lie_below_the_threshold() {
    assert!(REACH_THRESH < MAX_COST);
    assert!(1_000 * PROB_BASE < REACH_THRESH);
}

#[test]
fn new_sets_fields() {
    let a = Action::new("forward", nm(0.3), udeg(0.0), 0);
    assert_eq!(a.name, "forward");
    assert_eq!(a.delta_fw, 300_000_000);
    assert_eq!(a.delta_rot, 0);
    assert_eq!(a.id, 0);
    assert!(a.state_transitions.is_empty());
}

#[test]
fn counting_up_adds_one_sample() {
    let mut tr = StateTransition::new(1, -2, 3, 4);
    tr.count_up();
    assert_eq!(tr, StateTransition { dix: 1, diy: -2, dit: 3, prob: 5 });
}

#[test]
fn to_index_layout() {
    assert_eq!(to_index_raw(0, 0, 0, 4, 60), 0);
    assert_eq!(to_index_raw(0, 0, 5, 4, 60), 5);
    assert_eq!(to_index_raw(1, 0, 0, 4, 60), 60);
    assert_eq!(to_index_raw(0, 1, 0, 4, 60), 240);
}

#[test]
fn cell_delta_negative_correction() {
    let (ix, _, _) = cell_delta(nm(-0.01), 0, 0, nm(0.05), udeg(6.0));
    assert_eq!(ix, -1);
    let (ix2, _, _) = cell_delta(nm(0.06), 0, 0, nm(0.05), udeg(6.0));
    assert_eq!(ix2, 1);
}

#[test]
fn cell_delta_theta_absolute_not_normalized() {
    let (_, _, it) = cell_delta(0, 0, udeg(366.0), nm(0.05), udeg(6.0));
    assert_eq!(it, 61);
}

#[test]
fn no_noise_negative_theta_normalized_once() {
    let a = 10.0f64.to_radians();
    let (_, _, to_t) = no_noise_state_transition(
        0,
        udeg(-20.0),
        0,
        0,
        udeg(10.0),
        (a.cos() * 1e9) as i64,
        (a.sin() * 1e9) as i64,
    );
    assert_eq!(to_t, udeg(350.0));
}

#[test]
fn no_noise_over_360_not_normalized() {
    let a = 350.0f64.to_radians();
    let (_, _, to_t) = no_noise_state_transition(
        0,
        udeg(20.0),
        0,
        0,
        udeg(350.0),
        (a.cos() * 1e9) as i64,
        (a.sin() * 1e9) as i64,
    );
    assert_eq!(to_t, udeg(370.0));
}

#[test]
fn no_noise_forward_uses_cos_sin() {
    let (to_x, to_y, _) = no_noise_state_transition(nm(0.3), 0, 0, 0, 0, 1_000_000_000, 0);
    assert_eq!(to_x, nm(0.3));
    assert_eq!(to_y, 0);
    let (to_x, to_y, _) = no_noise_state_transition(nm(0.3), 0, 5, 7, 0, 0, -1_000_000_000);
    assert_eq!((to_x, to_y), (5, 7 - nm(0.3)));
}

fn motion(fw: f64, rot: f64, it: i32, res: f64, t_res: f64) -> Motion {
    let moves = (0..64)
        .map(|k| {
            let a = ((it as f64 + (k as f64 + 0.5) / 64.0) * t_res).to_radians();
            ((fw * a.cos() * 1e9).round() as i64, (fw * a.sin() * 1e9).round() as i64)
        })
        .collect();
    Motion { moves, rot: udeg(rot), it, xy_res: nm(res), t_res: udeg(t_res) }
}

#[test]
fn prob_sum_equals_prob_base() {
    let list = compute_theta_transitions(&motion(0.3, 0.0, 0, 0.05, 6.0));
    let total: i64 = list.iter().map(|s| s.prob as i64).sum();
    assert_eq!(total, PROB_BASE as i64);
}

#[test]
fn outcomes_are_listed_once() {
    let list = compute_theta_transitions(&motion(0.2, -20.0, 7, 0.05, 6.0));
    for (i, a) in list.iter().enumerate() {
        assert!(a.prob > 0);
        for b in &list[i + 1..] {
            assert!((a.dix, a.diy, a.dit) != (b.dix, b.diy, b.dit));
        }
    }
}

#[test]
fn forward_theta0_moves_in_x() {
    let list = compute_theta_transitions(&motion(0.3, 0.0, 0, 0.05, 6.0));
    let top = list.iter().max_by_key(|s| s.prob).unwrap();
    assert_eq!(top.diy, 0);
    assert_eq!(top.dit, 0);
    assert!(top.dix >= 5 && top.dix <= 6, "dix was {}", top.dix);
}

#[test]
fn rotation_dit_is_absolute_theta() {
    let list = compute_theta_transitions(&motion(0.0, 20.0, 0, 0.05, 6.0));
    let top = list.iter().max_by_key(|s| s.prob).unwrap();
    assert_eq!(top.dix, 0);
    assert_eq!(top.diy, 0);
    assert_eq!(top.dit, 3);
}

#[test]
fn rotation_dit_absolute_at_theta30() {
    let list = compute_theta_transitions(&motion(0.0, 20.0, 5, 0.05, 6.0));
    let top = list.iter().max_by_key(|s| s.prob).unwrap();
    assert_eq!(top.dit, 8);
}

#[test]
fn turning_right_from_zero_goes_round() {
    let list = compute_theta_transitions(&motion(0.0, -20.0, 0, 0.05, 6.0));
    assert!(list.iter().all(|s| s.dit == 56 || s.dit == 57));
}

fn mk_state(ix: i32, iy: i32, it: i32, free: bool, total: u64, penalty: u64) -> State {
    let mut s = State::new(ix, iy, it, free, penalty);
    s.total_cost = total;
    s
}

fn single_action(dix: i32, diy: i32, dit: i32, nt: usize) -> Action {
    let mut a = Action::new("a", 0, 0, 0);
    a.state_transitions = vec![Vec::new(); nt];
    for it in 0..nt {
        a.state_transitions[it].push(StateTransition::new(dix, diy, dit, PROB_BASE as i32));
    }
    a
}

#[test]
fn action_cost_deterministic_neighbor() {
    let nt = 1usize;
    let (nx, ny) = (2, 1);
    let states = vec![
        mk_state(0, 0, 0, true, MAX_COST, PROB_BASE),
        mk_state(1, 0, 0, true, 5 * PROB_BASE, PROB_BASE),
    ];
    let a = single_action(1, 0, 0, nt);
    let s = states[0];
    let c = action_cost_raw(&states, &a, &s, nx, ny, nt as i32);
    assert_eq!(c, 6 * PROB_BASE);
}

#[test]
fn action_cost_out_of_map_returns_max() {
    let nt = 1usize;
    let states = vec![mk_state(0, 0, 0, true, 0, 0)];
    let a = single_action(-1, 0, 0, nt);
    let s = states[0];
    let c = action_cost_raw(&states, &a, &s, 1, 1, nt as i32);
    assert_eq!(c, MAX_COST);
}

#[test]
fn action_cost_obstacle_neighbor_returns_max() {
    let nt = 1usize;
    let states = vec![mk_state(0, 0, 0, true, 0, 0), mk_state(1, 0, 0, false, 0, 0)];
    let a = single_action(1, 0, 0, nt);
    let s = states[0];
    let c = action_cost_raw(&states, &a, &s, 2, 1, nt as i32);
    assert_eq!(c, MAX_COST);
}

#[test]
fn action_cost_overflow_wraps() {
    let nt = 1usize;
    let penalty = PROB_BASE;
    let states = vec![
        mk_state(0, 0, 0, true, MAX_COST, penalty),
        mk_state(1, 0, 0, true, MAX_COST, penalty),
    ];
    let a = single_action(1, 0, 0, nt);
    let s = states[0];
    let c = action_cost_raw(&states, &a, &s, 2, 1, nt as i32);
    let term = (MAX_COST.wrapping_add(penalty)).wrapping_mul(PROB_BASE);
    let expected = term >> PROB_BASE_BIT;
    assert_eq!(c, expected);
    assert!(c < MAX_COST, "overflow wrap should yield value < MAX_COST, got {c}");
}

#[test]
fn value_iteration_picks_min_and_records_action() {
    let nt = 1usize;
    let (nx, ny) = (3, 1);
    let mut states = vec![
        mk_state(0, 0, 0, true, 4 * PROB_BASE, PROB_BASE),
        mk_state(1, 0, 0, true, MAX_COST, PROB_BASE),
        mk_state(2, 0, 0, true, 9 * PROB_BASE, PROB_BASE),
    ];
    let a0 = single_action(1, 0, 0, nt);
    let a1 = single_action(-1, 0, 0, nt);
    let actions = vec![a0, a1];
    let mid = 1usize;
    let d = value_iteration_raw(&mut states, &actions, mid, nx, ny, nt as i32);
    assert_eq!(states[mid].total_cost, 5 * PROB_BASE);
    assert_eq!(states[mid].optimal_action, Some(1));
    assert_eq!(d, MAX_COST - 5 * PROB_BASE);
}

#[test]
fn value_iteration_skips_final_and_obstacle() {
    let nt = 1usize;
    let mut s_final = mk_state(0, 0, 0, true, MAX_COST, PROB_BASE);
    s_final.final_state = true;
    let mut states = vec![s_final];
    let actions: Vec<Action> = vec![single_action(1, 0, 0, nt)];
    let d = value_iteration_raw(&mut states, &actions, 0, 1, 1, nt as i32);
    assert_eq!(d, 0);
    assert_eq!(states[0].total_cost, MAX_COST);
}

#[test]
fn belief_info_map_thresholds() {
    let mut walls = vec![false; 20 * 5];
    for iy in 0..5 {
        walls[iy * 20 + 10] = true;
    }
    let mut m = BeliefModel { nb_levels: 2, ..Default::default() };
    m.set_info(&walls, 20, 5, 2, 5);
    let at = |ix: i32, iy: i32| m.info[(iy * 20 + ix) as usize];
    assert_eq!(at(10, 2), 2);
    assert_eq!(at(8, 2), 2);
    assert_eq!(at(7, 2), 1);
    assert_eq!(at(5, 2), 1);
    assert_eq!(at(4, 2), 0);
    assert_eq!(at(0, 0), 0);
}

#[test]
fn belief_next_ib_clamps() {
    let bm = BeliefModel {
        nb_levels: 4,
        motion_gain: 1,
        info: vec![0, 1, 2],
        nx: 3,
        ..Default::default()
    };
    assert_eq!(bm.next_ib(0, 0, 0), 1);
    assert_eq!(bm.next_ib(3, 0, 0), 3);
    assert_eq!(bm.next_ib(2, 1, 0), 2);
    assert_eq!(bm.next_ib(2, 2, 0), 1);
    assert_eq!(bm.next_ib(0, 2, 0), 0);
    let one = BeliefModel { nb_levels: 1, info: vec![0, 1, 2], nx: 3, ..Default::default() };
    assert_eq!(one.next_ib(5, 0, 0), 0);
}
