//! Sources of poses, and windows on several levels.
use vi_lib::belief::index::BeliefGrid;
use vi_lib::localize::external::{ExternalLocalizer, Pose};
use vi_lib::localize::ladder::{Begin, Ladder, Move};
use vi_lib::localize::level::{build_levels, Level};
use vi_lib::localize::window::{
    bidx, carry_over, follow_by, level_free, place_window, recenter_by, shift_window, top_modes,
    window_states,
};

#[test]
fn localize_external_localizer_passes_pose_through() {
    let mut l = ExternalLocalizer::default();
    assert!(l.pose().is_none());
    let p = Pose { x: 1_000_000, y: -2_000_000, yaw: 30_000_000 };
    l.set_pose(p);
    assert_eq!(l.pose(), Some(p));
    assert_eq!(l.name(), "external");
}

#[test]
fn tests_external_localizer_passes_pose_through() {
    let mut l = ExternalLocalizer::default();
    l.set_pose(Pose { x: 1, y: 2, yaw: 3 });
    l.set_pose(Pose { x: 4, y: 5, yaw: 6 });
    assert_eq!(l.pose(), Some(Pose { x: 4, y: 5, yaw: 6 }));
}

fn levels() -> Vec<Level> {
    let mut data = vec![100i8; 45 * 30];
    data[0] = 0;
    data[29 * 45 + 44] = 0;
    build_levels(&data, 45, 30, 20, 60, 10, true)
}

#[test]
fn levels_grow_coarser() {
    let l = levels();
    assert_eq!(l.len(), 3);
    assert_eq!((l[0].mult, l[0].nt, l[0].nx, l[0].ny, l[0].whole), (1, 60, 20, 20, false));
    assert_eq!((l[1].mult, l[1].nt, l[1].map_w, l[1].map_h), (4, 30, 12, 8));
    assert!(l[1].whole && l[1].nx == 12 && l[1].ny == 8);
    assert_eq!((l[2].mult, l[2].nt, l[2].map_w, l[2].map_h), (10, 20, 5, 3));
    assert_eq!((l[0].beam_step, l[1].beam_step, l[2].beam_step), (10, 20, 40));
    assert_eq!(l[2].free.iter().filter(|&&f| f).count(), 2);
    assert!(level_free(&l[2], 0, 0, 4, 2) && !level_free(&l[2], 0, 0, 2, 2));
    assert!(!level_free(&l[2], 0, 0, 5, 2));
    assert_eq!(build_levels(&vec![0; 4], 2, 2, 20, 0, 0, false).len(), 1);
}

#[test]
fn windows_stay_on_the_map() {
    assert_eq!(place_window(0, 20, 45), 0);
    assert_eq!(place_window(22, 20, 45), 12);
    assert_eq!(place_window(99, 20, 45), 25);
    assert_eq!(place_window(i32::MIN, 3, 3), 0);
}

#[test]
fn carrying_over_to_the_whole_map_keeps_everything() {
    let l = levels();
    let c = carry_over(&l[0], 25, 10, &l[2], 0, 0);
    assert!(c.iter().all(|v| v.is_some()));
    let g = BeliefGrid { nx: 20, ny: 20, nt: 60 };
    let to = BeliefGrid { nx: 5, ny: 3, nt: 20 };
    let i = g.index(19, 19, 59);
    assert_eq!(c[i], Some(to.index(4, 2, 19) as u32));
    assert_eq!(c[g.index(0, 0, 3)], Some(to.index(2, 1, 1) as u32));
}

#[test]
fn carrying_over_to_a_window_drops_the_rest() {
    let a = Level {
        mult: 1,
        nt: 4,
        nx: 8,
        ny: 1,
        whole: true,
        beam_step: 1,
        map_w: 8,
        map_h: 1,
        free: Vec::new(),
    };
    let b = Level {
        mult: 4,
        nt: 4,
        nx: 1,
        ny: 1,
        whole: false,
        beam_step: 1,
        map_w: 2,
        map_h: 1,
        free: vec![true, false],
    };
    let c = carry_over(&a, 0, 0, &b, 1, 0);
    assert_eq!(c[..8].to_vec(), vec![None, None, None, None, Some(0), Some(0), Some(0), Some(0)]);
    assert_eq!(window_states(&b, 0, 0), vec![0, 1, 2, 3]);
    assert_eq!(window_states(&b, 1, 0), vec![0, 1, 2, 3]);
}

#[test]
fn windows_follow_when_it_is_worth_it() {
    let l = levels();
    assert_eq!(recenter_by(&l[0], 12, 5, 23, 15), None);
    assert_eq!(recenter_by(&l[0], 12, 5, 25, 15), Some((3, 0)));
    assert_eq!(recenter_by(&l[0], 12, 5, 99, 15), Some((13, 0)));
    assert_eq!(follow_by(20, 11, 9), None);
    assert_eq!(follow_by(20, 12, 10), Some((2, 0)));
    assert_eq!(follow_by(20, 10, -1), Some((0, -11)));
}

#[test]
fn weights_move_with_the_window() {
    let g = BeliefGrid { nx: 3, ny: 2, nt: 1 };
    let b = vec![0.1f32, 0.2, 0.3, 0.4, 0.5, 0.6];
    assert_eq!(shift_window(&b, &g, 1, 0, 0.0), vec![0.2, 0.3, 0.0, 0.5, 0.6, 0.0]);
    assert_eq!(shift_window(&b, &g, 0, -1, 0.0), vec![0.0, 0.0, 0.0, 0.1, 0.2, 0.3]);
    assert_eq!(bidx(3, 1, 2, 1), 16);
}

#[test]
fn peaks_of_a_window_lie_apart() {
    let g = BeliefGrid { nx: 5, ny: 1, nt: 2 };
    assert_eq!(top_modes(&vec![2, 7, 1, 4, 0], &g, 8, 2), vec![2, 4, 0]);
    assert_eq!(top_modes(&vec![2, 7, 1, 4, 0], &g, 2, 2), vec![2, 4]);
}

#[test]
fn levels_change_slowly() {
    let mut l = Ladder::new(3);
    assert_eq!(l.begin(), Begin::Uniform(2));
    assert!(l.on_top() && !l.gives_pose());
    assert_eq!(l.observed(false, true, true), Move::Stay);
    assert_eq!(l.observed(false, true, true), Move::Stay);
    assert_eq!(l.observed(false, true, false), Move::Stay);
    assert_eq!(l.observed(false, true, true), Move::Contract(1));
    assert_eq!(l.observed(true, true, true), Move::Stay);
    assert_eq!(l.observed(true, true, true), Move::Stay);
    assert_eq!(l.observed(true, true, true), Move::Expand(2));
    assert_eq!(l.begin(), Begin::Go);
    l.set_pose();
    assert!(l.gives_pose() && l.cur == 0);
    let mut one = Ladder::new(1);
    assert_eq!(one.begin(), Begin::Skip);
    assert!(!one.on_top());
}
