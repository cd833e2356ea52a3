use fastgo::go_band::{GoBand, Player};

fn place(band: &mut GoBand<19>, x: i32, y: i32) -> Option<fastgo::go_move::GoMove> {
    band.set_stone_pos(x, y);
    band.forward(true)
}

#[test]
fn capture_removes_surrounded_stone() {
    let mut band: GoBand<19> = GoBand::new(800, 800, 0, 0, 19);
    assert!(place(&mut band, 1, 2).is_some()); // black
    assert!(place(&mut band, 2, 2).is_some()); // white, the victim
    assert!(place(&mut band, 2, 1).is_some()); // black
    assert!(place(&mut band, 9, 9).is_some()); // white elsewhere
    assert!(place(&mut band, 3, 2).is_some()); // black
    assert!(place(&mut band, 9, 10).is_some()); // white elsewhere
    let capture = place(&mut band, 2, 3); // black closes the last liberty
    let mv = capture.expect("the capturing move must be accepted");
    assert_eq!(mv.eaten_stones(), vec![(2, 2, -1)]);
    assert_eq!(band.stone_state(2, 2), 0);
    assert_eq!(band.stone_state(2, 3), 1);
}

#[test]
fn suicide_is_rejected() {
    let mut band: GoBand<19> = GoBand::new(800, 800, 0, 0, 19);
    assert!(place(&mut band, 0, 1).is_some()); // black
    assert!(place(&mut band, 9, 9).is_some()); // white elsewhere
    assert!(place(&mut band, 1, 0).is_some()); // black
    // white plays into the sealed corner: no capture, no liberty
    assert!(place(&mut band, 0, 0).is_none());
    assert_eq!(band.stone_state(0, 0), 0);
    assert!(matches!(band.current_player(), Player::WHITE));
}

#[test]
fn ko_recapture_is_rejected_then_allowed() {
    let mut band: GoBand<19> = GoBand::new(800, 800, 0, 0, 19);
    assert!(place(&mut band, 1, 0).is_some()); // b
    assert!(place(&mut band, 2, 0).is_some()); // w
    assert!(place(&mut band, 0, 1).is_some()); // b
    assert!(place(&mut band, 3, 1).is_some()); // w
    assert!(place(&mut band, 1, 2).is_some()); // b
    assert!(place(&mut band, 2, 2).is_some()); // w
    assert!(place(&mut band, 9, 9).is_some()); // b elsewhere
    assert!(place(&mut band, 1, 1).is_some()); // w takes the ko point
    let capture = place(&mut band, 2, 1); // b captures the single white stone
    assert_eq!(capture.expect("capture must succeed").eaten_stones(), vec![(1, 1, -1)]);
    // immediate recapture of the single stone is the forbidden shape
    assert!(place(&mut band, 1, 1).is_none());
    assert_eq!(band.stone_state(1, 1), 0);
    // after an intervening exchange the recapture stands
    assert!(place(&mut band, 9, 10).is_some()); // w elsewhere
    assert!(place(&mut band, 9, 11).is_some()); // b elsewhere
    let recapture = place(&mut band, 1, 1); // w recaptures now
    assert_eq!(recapture.expect("recapture must succeed now").eaten_stones(), vec![(2, 1, 1)]);
}

#[test]
fn undo_restores_initial_board_and_player() {
    let mut band: GoBand<19> = GoBand::new(800, 800, 0, 0, 19);
    assert!(place(&mut band, 1, 2).is_some());
    assert!(place(&mut band, 2, 2).is_some());
    assert!(place(&mut band, 2, 1).is_some());
    assert!(place(&mut band, 9, 9).is_some());
    assert!(place(&mut band, 3, 2).is_some());
    assert!(place(&mut band, 9, 10).is_some());
    assert!(place(&mut band, 2, 3).is_some()); // captures (2, 2)
    for _ in 0..7 {
        band.back();
    }
    for x in 0..19 {
        for y in 0..19 {
            assert_eq!(band.stone_state(x, y), 0);
        }
    }
    assert!(matches!(band.current_player(), Player::BLACK));
    // a further undo on the empty history is a no-op
    band.back();
    assert!(matches!(band.current_player(), Player::BLACK));
}

#[test]
fn occupied_and_misaligned_cells_are_rejected() {
    let mut band: GoBand<19> = GoBand::new(800, 800, 0, 0, 19);
    assert!(place(&mut band, 4, 4).is_some());
    // the cell is taken
    assert!(place(&mut band, 4, 4).is_none());
    // without the record flag the cursor must match the preview
    band.set_stone_pos(5, 5);
    band.set_preview_pos(6, 6);
    band.set_stone_pos(5, 5);
    assert!(band.forward(false).is_none());
    // aligned through the preview it is accepted
    band.set_preview_pos(5, 5);
    assert!(band.forward(false).is_some());
}

#[test]
fn preview_is_clamped_to_the_grid() {
    let mut band: GoBand<19> = GoBand::new(800, 800, 0, 0, 19);
    band.set_preview_pos(-3, 25);
    assert_eq!(band.mouse_preview(), (0, 18));
    assert_eq!(band.stone_pos(), (-3, 25));
    band.set_next_stone_pos(vec![(1, 1, 1, true)]);
    band.set_current_player(Player::WHITE);
    assert!(matches!(band.current_player(), Player::WHITE));
    band.set_window_width(640);
    band.set_window_height(480);
    assert_eq!(band.window_width(), 640);
}

#[test]
fn out_of_grid_cursor_is_rejected() {
    let mut band: GoBand<19> = GoBand::new(800, 800, 0, 0, 19);
    band.set_stone_pos(-1, 5);
    assert!(band.forward(true).is_none());
    band.set_stone_pos(19, 5);
    assert!(band.forward(true).is_none());
    assert!(matches!(band.current_player(), Player::BLACK));
}

#[test]
fn capture_scan_reports_nothing_on_a_live_board() {
    let mut band: GoBand<19> = GoBand::new(800, 800, 0, 0, 19);
    band.set_stone_state(3, 3, 1);
    band.set_stone_state(9, 9, -1);
    assert!(band.can_eat_stones(1).is_none());
    // a lone stone whose four neighbors are enemies is one captured group
    band.set_stone_state(2, 3, -1);
    band.set_stone_state(4, 3, -1);
    band.set_stone_state(3, 2, -1);
    band.set_stone_state(3, 4, -1);
    let groups = band.can_eat_stones(-1).expect("one group has no liberty");
    assert_eq!(groups.len(), 1);
    assert_eq!(groups[0].1, 1);
    assert_eq!(groups[0].0, vec![(3, 3)]);
}

#[test]
fn capture_scan_orders_groups_and_cells() {
    let mut band: GoBand<19> = GoBand::new(800, 800, 0, 0, 19);
    // a two-stone black chain in the corner, sealed by white
    band.set_stone_state(0, 0, 1);
    band.set_stone_state(0, 1, 1);
    band.set_stone_state(0, 2, -1);
    band.set_stone_state(1, 0, -1);
    band.set_stone_state(1, 1, -1);
    // a lone sealed black stone further down the scan
    band.set_stone_state(5, 5, 1);
    band.set_stone_state(4, 5, -1);
    band.set_stone_state(6, 5, -1);
    band.set_stone_state(5, 4, -1);
    band.set_stone_state(5, 6, -1);
    let groups = band.can_eat_stones(-1).expect("two groups have no liberty");
    // most recently discovered first; cells in row-major order
    assert_eq!(groups.len(), 2);
    assert_eq!(groups[0].0, vec![(5, 5)]);
    assert_eq!(groups[0].1, 1);
    assert_eq!(groups[1].0, vec![(0, 0), (0, 1)]);
    assert_eq!(groups[1].1, 1);
}
