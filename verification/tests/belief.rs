//! The parts of a belief that count, compare and decide.
use vi_lib::beam::{clear_free_from_scan, Ray, Track};
use vi_lib::belief::evidence::{
    add_evidence, count_free, free_states, least_cost, prune, raise_floor, settle, state_count,
};
use vi_lib::belief::field::{FreeMap, LikelihoodField, CELL, FARTHEST};
use vi_lib::belief::index::{bidx2, BeliefGrid};
use vi_lib::belief::latch::{
    anneal_pow, beam_stride, pick_beams, takes_local, Evidence, Finding, Latch, LatchConfig, Reset,
    Restart,
};
use vi_lib::belief::minplus::{relax_line, relax_ring, FAR};
use vi_lib::belief::modes::{mode_count, modes, spread_m, weighted_modes, Spot};
use vi_lib::belief::pool::{block_cells, build_match_pool, targets};
use vi_lib::belief::rank::{strong_hyps, strongest, winner, MODE_CANDIDATE_CAP};
use vi_lib::belief::reloc::choose_displacement;
use vi_lib::belief::viterbi::{minplus_relax, minplus_shift};

const G: BeliefGrid = BeliefGrid { nx: 4, ny: 3, nt: 5 };

fn at(x: i32, y: i32, t: i32) -> usize {
    bidx2(G.nx, G.ny, x, y, t)
}

#[test]
fn positions_go_heading_by_heading() {
    assert_eq!(at(0, 0, 0), 0);
    assert_eq!(at(1, 0, 0), 1);
    assert_eq!(at(0, 1, 0), 4);
    assert_eq!(at(0, 0, 1), 12);
    assert_eq!(state_count(&G), 60);
    for i in 0..60u32 {
        let (x, y, t) = G.decode(i);
        assert_eq!(G.index(x, y, t), i as usize);
    }
}

#[test]
fn costs_spread_along_a_line() {
    let mut line = vec![FAR, 10, FAR, FAR, 0, FAR];
    relax_line(&mut line, 4);
    assert_eq!(line, vec![14, 10, 8, 4, 0, 4]);
    let mut none: Vec<u64> = vec![FAR; 3];
    relax_line(&mut none, 4);
    assert_eq!(none, vec![FAR; 3]);
}

#[test]
fn costs_spread_round_a_ring() {
    let mut ring = vec![0, FAR, FAR, FAR, FAR, FAR];
    relax_ring(&mut ring, 3);
    assert_eq!(ring, vec![0, 3, 6, 9, 6, 3]);
    let mut one = vec![7];
    relax_ring(&mut one, 3);
    assert_eq!(one, vec![7]);
}

#[test]
fn costs_spread_over_all_states() {
    let mut d = vec![FAR; 60];
    d[at(1, 1, 4)] = 5;
    minplus_relax(&mut d, &G, 10, 100);
    for i in 0..60u32 {
        let (x, y, t) = G.decode(i);
        let turn = (t - 4).abs().min(5 - (t - 4).abs()) as u64;
        let want = 5 + 10 * ((x - 1).abs() + (y - 1).abs()) as u64 + 100 * turn;
        assert_eq!(d[i as usize], want);
    }
}

#[test]
fn a_belief_moves_along_with_the_robot() {
    let mut d: Vec<u64> = (0..60).collect();
    let moves = vec![(1, 0), (0, 1), (-1, 0), (0, 0), (5, 5)];
    minplus_shift(&mut d, &G, &moves, 1);
    assert_eq!(d[at(1, 0, 1)], at(0, 0, 0) as u64);
    assert_eq!(d[at(0, 0, 1)], FAR);
    assert_eq!(d[at(2, 1, 2)], at(2, 0, 1) as u64);
    assert_eq!(d[at(0, 0, 3)], at(1, 0, 2) as u64);
    assert_eq!(d[at(3, 2, 4)], at(3, 2, 3) as u64);
    assert!((0..12).all(|i| d[i] == FAR));
}

fn free_but(x: i32, y: i32) -> Vec<bool> {
    (0..12).map(|c| c != y * 4 + x).collect()
}

#[test]
fn only_what_is_worth_it_is_weighed() {
    let free = free_but(0, 0);
    let mut d = vec![FAR; 60];
    d[at(0, 0, 0)] = 1;
    d[at(1, 0, 0)] = 2;
    d[at(2, 0, 0)] = 11;
    d[at(3, 0, 0)] = 12;
    let live = prune(&mut d, &G, &free, 10);
    assert_eq!(live, vec![at(1, 0, 0) as u32, at(2, 0, 0) as u32]);
    assert_eq!(d[at(0, 0, 0)], FAR);
    assert_eq!(d[at(3, 0, 0)], FAR);
    add_evidence(&mut d, &live, &vec![5, FAR]);
    assert_eq!(d[at(1, 0, 0)], 7);
    assert_eq!(d[at(2, 0, 0)], FAR);
    assert_eq!(least_cost(&d), 7);
    assert_eq!(settle(&mut d, &G, &free, 100), vec![at(1, 0, 0) as u32]);
}

#[test]
fn a_belief_without_hypotheses_starts_over() {
    let free = free_but(2, 1);
    let mut d = vec![FAR; 60];
    let live = settle(&mut d, &G, &free, 100);
    assert_eq!(live, free_states(&G, &free));
    assert_eq!(live.len(), 55);
    assert_eq!(count_free(&free), 11);
    assert!(live.iter().all(|&i| d[i as usize] == 0));
    assert_eq!(d[at(2, 1, 0)], FAR);
}

#[test]
fn a_floor_keeps_every_free_state_in_the_race() {
    let free = free_but(2, 1);
    let mut d = vec![FAR; 60];
    d[at(0, 0, 0)] = 3;
    let live = raise_floor(&mut d, &G, &free, &vec![at(0, 0, 0) as u32], 20).unwrap();
    assert_eq!(live.len(), 55);
    assert_eq!(d[at(0, 0, 0)], 3);
    assert_eq!(d[at(3, 2, 4)], 23);
    assert_eq!(d[at(2, 1, 0)], FAR);
    assert!(raise_floor(&mut d, &G, &free, &Vec::new(), 20).is_none());
}

#[test]
fn the_strongest_come_first() {
    let scores = vec![5, 9, 5, 1, 9];
    assert_eq!(strongest(&scores, 3), vec![1, 4, 0]);
    assert_eq!(strongest(&scores, 99), vec![1, 4, 0, 2, 3]);
    assert!(strongest(&scores, 0).is_empty());
    for k in 0..6 {
        assert_eq!(strongest(&scores, k), strongest(&scores, 99)[..k.min(5)].to_vec());
    }
    assert_eq!(winner(&scores), Some(1));
    assert_eq!(winner(&Vec::new()), None);
}

#[test]
fn peaks_need_a_twentieth_of_the_best() {
    assert_eq!(strong_hyps(&vec![100, 5, 4, 60]), Some(vec![0, 3, 1]));
    assert_eq!(strong_hyps(&vec![0, 0]), None);
    assert_eq!(strong_hyps(&vec![7; MODE_CANDIDATE_CAP]).unwrap().len(), MODE_CANDIDATE_CAP);
    assert_eq!(strong_hyps(&vec![7; MODE_CANDIDATE_CAP + 1]), None);
}

fn spot(x: f64, y: f64, weight: u64) -> Spot {
    Spot { x: (x * 1e6).round() as i64, y: (y * 1e6).round() as i64, weight }
}

#[test]
fn mode_count_separates_peaks_not_cells() {
    let many: Vec<Spot> = (0..64).map(|k| spot(1.2 + 0.005 * k as f64, 1.5, 1)).collect();
    assert!(many.len() >= 2);
    assert_eq!(mode_count(&many, 500_000), 1);
    let two = vec![spot(1.2, 1.5, 6), spot(1.25, 1.5, 2), spot(2.2, 1.5, 2)];
    assert_eq!(mode_count(&two, 500_000), 2);
    assert_eq!(modes(&two, 500_000), vec![0, 2]);
    assert_eq!(weighted_modes(&two, 500_000, 8), vec![(0, 8), (2, 2)]);
    assert_eq!(weighted_modes(&two, 500_000, 1), vec![(0, 8)]);
}

#[test]
fn weight_goes_to_the_nearest_peak() {
    let hyps = vec![spot(0.0, 0.0, 4), spot(1.0, 0.0, 2), spot(0.75, 0.0, 1)];
    assert_eq!(modes(&hyps, 1_000_000), vec![0, 1]);
    assert_eq!(weighted_modes(&hyps, 1_000_000, 8), vec![(0, 4), (1, 3)]);
    assert_eq!(weighted_modes(&hyps, 1_000_000, 1), vec![(0, 5)]);
    let middle = vec![spot(0.0, 0.0, 4), spot(1.0, 0.0, 2), spot(0.5, 0.0, 1)];
    assert_eq!(weighted_modes(&middle, 1_000_000, 8), vec![(0, 5), (1, 2)]);
}

#[test]
fn spread_m_measures_length_not_geometric_mean() {
    assert_eq!(spread_m(&vec![spot(1.0, 1.0, 1)]), 0);
    let two = vec![spot(1.0, 1.0, 1), spot(2.0, 1.0, 1)];
    assert_eq!(spread_m(&two), 500_000);
    let skewed = vec![spot(1.0, 1.0, 99), spot(2.0, 1.0, 1)];
    assert!(spread_m(&skewed) < 200_000);
    assert_eq!(spread_m(&vec![spot(1.0, 1.0, 0), spot(2.0, 1.0, 0)]), 0);
}

#[test]
fn a_spread_is_computed_of_many_heavy_and_far_hypotheses() {
    let many: Vec<Spot> = (0..10_000).map(|k| spot((k % 2) as f64, 0.0, 1)).collect();
    assert_eq!(spread_m(&many), 500_000);
    let heavy = vec![spot(1.0, 1.0, 1 << 40), spot(2.0, 1.0, 1 << 40)];
    assert_eq!(spread_m(&heavy), 500_000);
    let far = vec![spot(-500_000.0, 0.0, 3), spot(500_000.0, 0.0, 3)];
    assert_eq!(spread_m(&far), 500_000_000_000);
    let still = vec![spot(0.0, 0.0, u64::MAX), spot(0.0, 0.0, u64::MAX)];
    assert_eq!(spread_m(&still), 0);
}

#[test]
fn unknown_cells_are_neither_free_nor_obstacles() {
    let mut data = vec![0i8; 5 * 3];
    data[0] = 100;
    data[4] = -1;
    let f = LikelihoodField::from_grid(&data, 5, 3);
    assert!(f.free_cell(1, 0) && !f.free_cell(0, 0) && !f.free_cell(4, 0));
    assert!(f.unk_at(4, 0) && !f.unk_at(0, 0) && !f.unk_at(-1, 0));
    assert_eq!(f.known_dist(0, 0), Some(0));
    assert_eq!(f.known_dist(3, 0), Some(3));
    assert_eq!(f.known_dist(2, 2), Some(2));
    assert_eq!(f.known_dist(4, 0), None);
    assert_eq!(f.known_dist(5, 0), None);
    assert_eq!(f.far[2], 2 * CELL);
}

#[test]
fn without_obstacles_everything_is_far() {
    let f = LikelihoodField::from_grid(&vec![0i8; 4], 2, 2);
    assert!(f.far.iter().all(|&d| d == FARTHEST));
    assert_eq!(f.known_dist(1, 1), Some(255));
}

#[test]
fn clear_free_from_scan_opens_the_ghost_wall_for_the_belief() {
    let mut data = vec![0i8; 60 * 60];
    for x in 1..59 {
        data[30 * 60 + x] = 100;
        data[45 * 60 + x] = 100;
    }
    let mut map = FreeMap::new(&data, 60, 60);
    let mut field = LikelihoodField::from_grid(&data, 60, 60);
    field.explain(vec![9; 60 * 60]);
    let before = map.n_free;
    let up = Ray { cos: 0, sin: 1_000_000_000, range: 1_200_000 };
    let t = Track { x: 1_525_000, y: 1_025_000, two_steps: 50_000, back: 50_000, res: 50_000 };
    clear_free_from_scan(&mut map, &mut field, &vec![up], &t, &t);
    assert!(map.free[30 * 60 + 30]);
    assert!(field.free_cell(30, 30));
    assert_eq!(field.level(30, 30), 9);
    assert!(!map.free[45 * 60 + 30]);
    assert_eq!(map.n_free, before + 1);
    assert!(!map.open_cell(60, 0));
    assert_eq!(field.level(-1, 0), 0);
}

#[test]
fn blocks_hold_their_free_cells() {
    let mut free = vec![false; 10 * 9];
    free[8 * 10 + 9] = true;
    free[0] = true;
    assert_eq!(build_match_pool(10, 9, &free), vec![(0, 0), (8, 8)]);
    assert_eq!(block_cells(10, 9, &free, 8, 8), vec![(9, 8)]);
    assert!(block_cells(10, 9, &free, 8, 0).is_empty());
}

#[test]
fn weight_goes_to_free_states_only() {
    let free = free_but(2, 1);
    let offsets = vec![(-1, 0, 0), (1, 0, 0), (0, -1, 0), (0, 1, 0), (0, 0, -1), (0, 0, 1)];
    let t = targets(&G, &free, 3, 1, 0, &offsets);
    let want = vec![
        (at(3, 0, 0) as u32, 2),
        (at(3, 2, 0) as u32, 3),
        (at(3, 1, 4) as u32, 4),
        (at(3, 1, 1) as u32, 5),
    ];
    assert_eq!(t, want);
}

#[test]
fn the_displacement_that_tells_most_apart_is_picked() {
    let look = |a: u8, b: u8| Some(vec![vec![a, 7], vec![b, 7]]);
    let looks = vec![None, look(1, 2), look(9, 2), look(2, 9)];
    assert_eq!(choose_displacement(2, &looks), Some(2));
    assert_eq!(choose_displacement(1, &looks), None);
    assert_eq!(choose_displacement(2, &vec![None, look(3, 3)]), None);
    assert_eq!(choose_displacement(2, &Vec::new()), None);
}

const FLAT: LatchConfig = LatchConfig { global_match: false, gated: true, probation_obs: 2 };
const MATCH: LatchConfig = LatchConfig { global_match: true, gated: false, probation_obs: 0 };
const GOOD: Evidence = Evidence {
    mismatched: false,
    wide: false,
    unimodal: true,
    peak: true,
    held: true,
    moved: true,
    poor: false,
};

fn lost() -> Latch {
    Latch { initialized: true, lost: true, probation: 0, hold: 0 }
}

#[test]
fn a_belief_starts_lost() {
    let mut l = Latch::new();
    assert!(!l.gives_pose());
    assert_eq!(l.begin(&FLAT), Some(Restart::Uniform));
    assert!(l.lost && !l.gives_pose());
    assert_eq!(l.begin(&FLAT), None);
    let mut m = Latch::new();
    assert_eq!(m.begin(&MATCH), Some(Restart::Empty));
    m.seeded();
    assert!(m.gives_pose());
}

#[test]
fn lost_gate_skips_stationary_scans() {
    let mut l = Latch::new();
    l.seeded();
    assert!(!l.skips(&FLAT, true));
    l.lost = true;
    assert!(l.skips(&FLAT, true));
    assert!(!l.skips(&FLAT, false));
    assert!(!l.skips(&MATCH, true));
}

#[test]
fn lost_release_requires_unimodal() {
    let cfg = LatchConfig { probation_obs: 0, ..FLAT };
    let mut l = lost();
    assert_eq!(l.conclude(&cfg, &Evidence { unimodal: false, ..GOOD }), Finding::Blocked);
    assert!(!l.gives_pose());
    assert_eq!(l.conclude(&cfg, &GOOD), Finding::Found);
    assert!(l.gives_pose() && !l.in_probation());
}

#[test]
fn a_match_has_to_hold_before_it_is_believed() {
    let mut l = lost();
    for k in 1..10 {
        assert_eq!(l.conclude(&MATCH, &GOOD), Finding::Holding, "{k}");
    }
    let mut jumped = l;
    assert_eq!(l.conclude(&MATCH, &GOOD), Finding::Found);
    assert_eq!(jumped.conclude(&MATCH, &Evidence { held: false, ..GOOD }), Finding::Holding);
    assert_eq!(jumped.hold, 1);
    assert_eq!(jumped.conclude(&MATCH, &Evidence { peak: false, ..GOOD }), Finding::Blocked);
    assert_eq!(jumped.hold, 0);
}

#[test]
fn probation_reverts_on_mismatch_and_confirms_on_consistency() {
    let mut l = lost();
    assert_eq!(l.conclude(&FLAT, &GOOD), Finding::Found);
    assert!(l.gives_pose() && l.in_probation());
    assert_eq!(l.conclude(&FLAT, &GOOD), Finding::Passed);
    assert!(l.in_probation());
    let mut failed = l;
    assert_eq!(failed.conclude(&FLAT, &Evidence { poor: true, ..GOOD }), Finding::Failed);
    assert!(!failed.gives_pose() && !failed.in_probation());
    assert_eq!(l.conclude(&FLAT, &Evidence { moved: false, poor: true, ..GOOD }), Finding::Driving);
    assert_eq!(l.conclude(&FLAT, &GOOD), Finding::Passed);
    assert!(l.gives_pose() && !l.in_probation());
    assert_eq!(l.conclude(&FLAT, &GOOD), Finding::Tracking);
}

#[test]
fn a_mismatch_is_answered() {
    let mut l = Latch::new();
    l.seeded();
    let mut a = l;
    assert_eq!(a.mismatch(&FLAT, true, false, true), Reset::Mix);
    assert!(!a.lost);
    assert_eq!(a.conclude(&FLAT, &Evidence { mismatched: true, ..GOOD }), Finding::Lost);
    assert_eq!(a.mismatch(&FLAT, true, true, true), Reset::Keep);
    assert_eq!(a.mismatch(&FLAT, true, false, true), Reset::Uniform);
    let mut b = l;
    assert_eq!(b.mismatch(&MATCH, true, false, false), Reset::Keep);
    assert_eq!(b.mismatch(&MATCH, true, false, true), Reset::Rematch);
    assert!(b.lost);
    assert_eq!(b.mismatch(&MATCH, true, false, true), Reset::Reseed);
    assert_eq!(l.mismatch(&FLAT, false, false, true), Reset::Keep);
}

#[test]
fn a_belief_that_ran_empty_is_spread_again() {
    let mut l = Latch::new();
    l.seeded();
    let mut a = l;
    assert!(a.flushed(&FLAT, true) && a.lost);
    assert!(!l.flushed(&MATCH, true));
    assert_eq!(l.collected(&MATCH, false, true), (false, true));
    assert!(l.lost);
    assert_eq!(l.collected(&MATCH, true, true), (false, false));
    assert_eq!(l.collected(&FLAT, false, false), (true, false));
    assert_eq!(l.weighed(&FLAT, true), Some(Restart::Uniform));
    assert_eq!(l.weighed(&MATCH, true), Some(Restart::Empty));
    assert_eq!(l.weighed(&FLAT, false), None);
    assert_eq!(l.fail_probation(&MATCH), Restart::Empty);
}

#[test]
fn certainty_has_levels() {
    let mut l = Latch::new();
    l.seeded();
    assert_eq!((l.b_hat(4, -3), l.b_hat(4, 2), l.b_hat(4, 9)), (0, 2, 3));
    l.lost = true;
    assert_eq!((l.b_hat(4, 0), l.b_hat(0, 0)), (3, 0));
}

#[test]
fn few_beams_are_used_while_lost() {
    assert_eq!(beam_stride(0, false, &FLAT), 1);
    assert_eq!(beam_stride(10, true, &FLAT), 40);
    assert_eq!(beam_stride(10, true, &MATCH), 10);
    let valid = vec![true, true, false, true, true, true];
    assert_eq!(pick_beams(&valid, 2), vec![0, 4]);
}

#[test]
fn matches_and_evidence_harden() {
    assert!(takes_local(5, 10) && !takes_local(4, 9) && !takes_local(0, 0));
    assert_eq!(anneal_pow(0), 1);
    assert_eq!(anneal_pow(1_600_000), 4);
    assert_eq!(anneal_pow(u64::MAX), 8);
}
