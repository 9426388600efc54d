use spt_native::loot::container_extensions::{
    find_slot_for_item, try_fill_container_map_with_item, FindSlotResult,
};

fn grid(rows: usize, columns: usize) -> Vec<Vec<u8>> {
    vec![vec![0u8; columns]; rows]
}

#[test]
fn find_slot_scans_rows_outer_columns_inner_and_takes_the_first_fit() {
    let container = vec![vec![1, 1, 0], vec![0, 0, 0]];

    let result = find_slot_for_item(&container, 1, 1);

    // Rows are the outer loop and columns the inner one, so the single free cell at the end of
    // row 0 beats the entirely free row below it.
    assert_eq!(
        result,
        FindSlotResult {
            success: true,
            x: 2,
            y: 0,
            rotation: false,
        }
    );
}

#[test]
fn find_slot_skips_full_rows_and_keeps_scanning() {
    let container = vec![vec![1, 1, 1], vec![1, 0, 1]];

    let result = find_slot_for_item(&container, 1, 1);

    assert_eq!(
        result,
        FindSlotResult {
            success: true,
            x: 1,
            y: 1,
            rotation: false,
        }
    );
}

#[test]
fn find_slot_fails_when_every_cell_is_taken() {
    let container = vec![vec![1, 1], vec![1, 1]];

    // The full-container early exit: failure carries no position.
    assert_eq!(
        find_slot_for_item(&container, 1, 1),
        FindSlotResult::default()
    );
}

#[test]
fn find_slot_rotates_when_the_item_only_fits_sideways() {
    let container = grid(3, 2);

    // 3 wide x 2 high never fits in 2 columns; 3 + 2 > 2 so the rotated 2 wide x 3 high check
    // runs and fills the grid exactly.
    let result = find_slot_for_item(&container, 3, 2);

    assert_eq!(
        result,
        FindSlotResult {
            success: true,
            x: 0,
            y: 0,
            rotation: true,
        }
    );
}

#[test]
fn find_slot_prefers_the_unrotated_fit_when_both_orientations_fit() {
    let container = grid(3, 3);

    // Row 0 / column 0 takes a 2 wide x 1 high item either way round, and the unrotated check
    // runs first, so rotation stays off. Trying the rotated orientation first would report
    // `rotation: true` here and stamp a 1x2 footprint instead of a 2x1 one.
    let result = find_slot_for_item(&container, 2, 1);

    assert_eq!(
        result,
        FindSlotResult {
            success: true,
            x: 0,
            y: 0,
            rotation: false,
        }
    );
}

#[test]
fn find_slot_tries_both_orientations_per_cell_before_moving_on() {
    // Rotation is attempted at each cell, not in a second pass over the whole grid: 2 wide x 1
    // high cannot start at (0, 0) (taken) and cannot fit unrotated at (0, 1) (one column left),
    // but rotated it stands in column 1 across both rows. A full unrotated pass followed by a
    // full rotated pass would settle for (0, 1) unrotated instead.
    let container = vec![vec![1, 0], vec![0, 0]];

    let result = find_slot_for_item(&container, 2, 1);

    assert_eq!(
        result,
        FindSlotResult {
            success: true,
            x: 1,
            y: 0,
            rotation: true,
        }
    );
}

#[test]
fn find_slot_loop_bounds_use_the_smaller_dimension_quirk() {
    // Both limits come from `min(w, h) - 1` rather than the dimension that actually bounds each
    // axis.
    //
    // Hand-computed for this case — rows = 3, cols = 1, item 3 wide x 1 high:
    //   minVolume = min(3, 1) - 1 = 0
    //   limitY    = 3 - 0 = 3   -> rows 0, 1, 2 are scanned
    //   limitX    = 1 - 0 = 1   -> column 0 is scanned
    //   row 0, column 0: unrotated wants columns 0..2 of a 1-column grid -> rejected on bounds.
    //                    3 + 1 > 2, so the rotated 1 wide x 3 high check runs: rows 0..2 of
    //                    column 0, all free -> fit.
    // So the scan succeeds at (0, 0) rotated.
    let container = grid(3, 1);

    let result = find_slot_for_item(&container, 3, 1);

    assert_eq!(
        result,
        FindSlotResult {
            success: true,
            x: 0,
            y: 0,
            rotation: true,
        }
    );
}

#[test]
fn find_slot_fails_without_panicking_when_the_bounds_go_negative() {
    // 2x2 grid, 5x5 item: minVolume = 4, so limitY = limitX = -2 and neither loop body runs.
    // Only oversized items are safe this way — a 0-sized one overshoots instead and panics, see
    // the note on `find_slot_for_item`.
    let container = grid(2, 2);

    assert!(!find_slot_for_item(&container, 5, 5).success);
}

#[test]
fn try_fill_marks_every_cell_the_item_covers() {
    let mut container = grid(3, 3);

    assert!(try_fill_container_map_with_item(
        &mut container,
        1,
        0,
        2,
        2,
        false
    ));
    assert_eq!(container, vec![vec![0, 1, 1], vec![0, 1, 1], vec![0, 0, 0]]);
}

#[test]
fn try_fill_swaps_width_and_height_when_rotated() {
    let mut container = grid(3, 3);

    // 1 wide x 3 high rotated covers 3 columns of one row instead.
    assert!(try_fill_container_map_with_item(
        &mut container,
        0,
        0,
        1,
        3,
        true
    ));
    assert_eq!(container, vec![vec![1, 1, 1], vec![0, 0, 0], vec![0, 0, 0]]);
}

#[test]
fn try_fill_leaves_partial_marks_behind_when_it_collides_quirk() {
    // The marking stops on the first taken cell and never rolls back the cells it already
    // flagged, so the container keeps those marks.
    let mut container = vec![vec![0, 0, 1]];

    let filled = try_fill_container_map_with_item(&mut container, 0, 0, 3, 1, false);

    assert!(!filled);
    assert_eq!(container, vec![vec![1, 1, 1]]);
}

#[test]
fn try_fill_1x1_marks_blindly_and_succeeds_even_on_a_taken_cell() {
    let mut container = vec![vec![1, 0]];

    // The 1x1 fast path writes without checking, and still reports success.
    assert!(try_fill_container_map_with_item(
        &mut container,
        0,
        0,
        1,
        1,
        false
    ));
    assert_eq!(container, vec![vec![1, 0]]);
}

#[test]
fn find_slot_then_try_fill_agree_on_the_rotated_footprint() {
    let mut container = grid(3, 2);

    let slot = find_slot_for_item(&container, 3, 2);
    assert!(slot.rotation);

    assert!(try_fill_container_map_with_item(
        &mut container,
        slot.x,
        slot.y,
        3,
        2,
        slot.rotation
    ));
    assert!(container.iter().flatten().all(|&cell| cell == 1));
}

#[test]
fn find_slot_reports_the_rotated_position_of_a_tall_item_in_a_wide_grid() {
    // 1 wide x 3 high never fits in a single row; rotated it lies along row 0.
    let container = grid(1, 3);

    assert_eq!(
        find_slot_for_item(&container, 1, 3),
        FindSlotResult {
            success: true,
            x: 0,
            y: 0,
            rotation: true,
        }
    );
}

#[test]
fn find_slot_on_a_grid_without_rows_fails() {
    let container: Vec<Vec<u8>> = Vec::new();

    assert_eq!(find_slot_for_item(&container, 1, 1), FindSlotResult::default());
}

#[test]
fn find_slot_treats_a_non_binary_cell_as_taken_only_for_one_by_one_items() {
    // Only the value 1 blocks a larger item, while a 1x1 needs a 0.
    let container = vec![vec![2, 0]];

    assert_eq!(
        find_slot_for_item(&container, 1, 1),
        FindSlotResult {
            success: true,
            x: 1,
            y: 0,
            rotation: false,
        }
    );
    assert_eq!(
        find_slot_for_item(&container, 2, 1),
        FindSlotResult {
            success: true,
            x: 0,
            y: 0,
            rotation: false,
        }
    );
    // ...which is why filling that slot then collides on the 2.
    let mut filled = container.clone();
    assert!(!try_fill_container_map_with_item(&mut filled, 0, 0, 2, 1, false));
    assert_eq!(filled, vec![vec![2, 0]]);
}

#[test]
fn try_fill_with_a_non_positive_size_marks_nothing_and_succeeds() {
    let mut container = grid(2, 2);

    assert!(try_fill_container_map_with_item(&mut container, 0, 0, 0, 2, false));
    assert_eq!(container, grid(2, 2));
}

#[test]
fn find_slot_takes_huge_items_without_overflow() {
    let container = grid(2, 2);
    let side = (1 << 30) - 1;

    assert_eq!(find_slot_for_item(&container, side, side), FindSlotResult::default());
    assert_eq!(find_slot_for_item(&container, 1, side), FindSlotResult::default());
}

#[test]
fn find_slot_reads_the_width_off_the_first_row() {
    // Later rows may be longer; only the first row's width is scanned.
    let container = vec![vec![1, 1], vec![1, 1, 0]];

    assert!(!find_slot_for_item(&container, 1, 1).success);

    let container = vec![vec![1, 0], vec![0, 0, 0]];
    assert_eq!(
        find_slot_for_item(&container, 1, 2),
        FindSlotResult { success: true, x: 1, y: 0, rotation: false }
    );
}
