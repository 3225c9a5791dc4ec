//! The benchmark viewer's model: maze walls, the tick budget and labels.

use ryzr::bench::{button_label, faster, is_wall_cell, slower, status_text, ControlKind, MAP_SIZE};

#[test]
fn maze_walls() {
    assert!(is_wall_cell(0, 0));
    assert!(!is_wall_cell(1, 1));
    assert!(is_wall_cell(6, 1));
    assert!(!is_wall_cell(3, 3));
    assert!(is_wall_cell(2, 4));
    assert!(is_wall_cell(12, 6));
    assert!(!is_wall_cell(7, 7));
    // The border is solid and everything off the map counts as a wall.
    for i in 0..MAP_SIZE {
        assert!(is_wall_cell(i, 0) && is_wall_cell(i, 12) && is_wall_cell(0, i) && is_wall_cell(12, i));
    }
    assert!(is_wall_cell(13, 1));
    assert!(is_wall_cell(1, 13));
    let open = (0..MAP_SIZE).flat_map(|r| (0..MAP_SIZE).map(move |c| (c, r))).filter(|&(c, r)| !is_wall_cell(c, r)).count();
    assert_eq!(open, 77);
}

#[test]
fn tick_budget_halves_and_doubles_within_bounds() {
    assert_eq!(slower(2048), 1024);
    assert_eq!(slower(200), 128);
    assert_eq!(slower(128), 128);
    assert_eq!(faster(2048), 4096);
    assert_eq!(faster(40_000), 65_536);
    assert_eq!(faster(65_536), 65_536);
    let mut t = 2048;
    for _ in 0..20 {
        t = faster(t);
    }
    assert_eq!(t, 65_536);
    for _ in 0..20 {
        t = slower(t);
    }
    assert_eq!(t, 128);
}

#[test]
fn control_labels() {
    assert_eq!(button_label(ControlKind::RunPause, true), "Pause");
    assert_eq!(button_label(ControlKind::RunPause, false), "Run");
    assert_eq!(button_label(ControlKind::Slower, true), "-");
    assert_eq!(button_label(ControlKind::Faster, false), "+");
    assert_eq!(button_label(ControlKind::Reset, true), "Reset");
    assert_eq!(status_text(true, true), "ryzr: complete");
    assert_eq!(status_text(false, true), "ryzr: running");
    assert_eq!(status_text(false, false), "ryzr: paused");
}
