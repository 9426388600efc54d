use spt_native::loot::item_helper::MONEY;
use spt_native::loot::container_extensions::FindSlotResult;
use spt_native::loot::location_loot_generator::{
    container_spawns_this_season, first_of_each_location, increment_count, is_christmas_spawn_point,
    item_is_lootable, place_items_in_container, random_stack_count, spawn_point_spawns_this_season,
};
use spt_native::loot::models::{CounterState, ItemView, SeasonalView};

fn seasonal(seasonal_event_active: bool, christmas_event_enabled: bool) -> SeasonalView {
    SeasonalView {
        seasonal_event_active,
        christmas_event_enabled,
        inactive_seasonal_items: vec!["pumpkin".to_owned(), "tree".to_owned()],
        christmas_container_ids: vec!["xmas_box".to_owned()],
    }
}

#[test]
fn increment_count_ignores_untracked_keys_and_caps_tracked_ones() {
    let mut counter = CounterState::default();

    assert!(!increment_count(&mut counter, MONEY));
    assert!(counter.tracked_counts.is_empty());

    counter.max_counts.insert(MONEY.to_owned(), 1);
    assert!(!increment_count(&mut counter, MONEY));
    assert!(increment_count(&mut counter, MONEY));
    assert_eq!(counter.tracked_counts.get(MONEY), Some(&2));
}

#[test]
fn increment_count_leaves_the_limits_alone_and_counts_only_the_given_key() {
    let mut counter = CounterState::default();
    counter.max_counts.insert("a".to_owned(), 3);
    counter.max_counts.insert("b".to_owned(), 0);

    assert!(!increment_count(&mut counter, "a"));
    assert!(increment_count(&mut counter, "b"));
    assert!(!increment_count(&mut counter, "a"));
    assert!(!increment_count(&mut counter, "a"));
    assert!(increment_count(&mut counter, "a"));

    assert_eq!(counter.tracked_counts.get("a"), Some(&4));
    assert_eq!(counter.tracked_counts.get("b"), Some(&1));
    assert_eq!(counter.max_counts.get("a"), Some(&3));
    assert_eq!(counter.max_counts.get("b"), Some(&0));
    assert_eq!(counter.max_counts.len(), 2);
}

#[test]
fn christmas_containers_only_spawn_during_the_event() {
    assert!(!container_spawns_this_season(&seasonal(false, false), "xmas_box"));
    assert!(container_spawns_this_season(&seasonal(false, false), "crate_1"));
    assert!(container_spawns_this_season(&seasonal(false, true), "xmas_box"));
    assert!(container_spawns_this_season(&seasonal(true, true), "crate_1"));
}

#[test]
fn christmas_spawn_points_are_recognised_in_any_case() {
    assert!(is_christmas_spawn_point("christmas_tree_loot (3)"));
    assert!(is_christmas_spawn_point("CHRISTMAS"));
    assert!(is_christmas_spawn_point("ChRiStMaS_gift"));
    assert!(!is_christmas_spawn_point("christma"));
    assert!(!is_christmas_spawn_point("xchristmas"));
    assert!(!is_christmas_spawn_point(""));
    assert!(!is_christmas_spawn_point("chr\u{00ed}stmas_box"));

    assert!(!spawn_point_spawns_this_season(&seasonal(true, false), "Christmas_1"));
    assert!(spawn_point_spawns_this_season(&seasonal(true, true), "Christmas_1"));
    assert!(spawn_point_spawns_this_season(&seasonal(false, false), "loot_1"));
}

#[test]
fn the_loot_pool_drops_blacklisted_and_out_of_season_items() {
    let blacklist = vec!["quest_item".to_owned()];

    assert!(!item_is_lootable(&seasonal(true, true), &blacklist, "quest_item"));
    assert!(!item_is_lootable(&seasonal(false, false), &blacklist, "pumpkin"));
    assert!(item_is_lootable(&seasonal(true, false), &blacklist, "pumpkin"));
    assert!(item_is_lootable(&seasonal(false, false), &blacklist, "bolts"));
    assert!(item_is_lootable(&seasonal(false, false), &[], "bolts"));
}

#[test]
fn duplicate_location_ids_keep_the_first_spawn_point_only() {
    let ids = vec![
        Some("loc_a".to_owned()),
        Some("loc_b".to_owned()),
        Some("loc_a".to_owned()),
        None,
        None,
        Some("loc_b".to_owned()),
        Some("loc_c".to_owned()),
    ];

    assert_eq!(
        first_of_each_location(&ids),
        vec![true, true, false, true, false, false, true]
    );
    assert!(first_of_each_location(&[]).is_empty());
}

fn slot(x: i32, y: i32, rotation: bool) -> Option<FindSlotResult> {
    Some(FindSlotResult { success: true, x, y, rotation })
}

#[test]
fn placing_loot_skips_misses_and_gives_up_past_the_attempt_limit() {
    let mut grid = vec![vec![0u8; 3]; 3];
    let sizes = vec![Some((2, 2)), Some((2, 2)), Some((1, 1)), None, Some((1, 1))];

    let placed = place_items_in_container(&mut grid, &sizes, 0);

    assert_eq!(placed, vec![slot(0, 0, false), None, slot(2, 0, false), None, None]);
    assert_eq!(grid, vec![vec![1, 1, 1], vec![1, 1, 0], vec![0, 0, 0]]);
}

#[test]
fn placing_loot_rotates_items_that_only_fit_sideways() {
    let mut grid = vec![vec![0u8; 3]; 2];

    let placed = place_items_in_container(&mut grid, &[Some((1, 3)), Some((1, 1))], 2);

    assert_eq!(placed, vec![slot(0, 0, true), slot(0, 1, false)]);
    assert_eq!(grid, vec![vec![1, 1, 1], vec![1, 0, 0]]);
}

#[test]
fn placing_loot_treats_unknown_or_empty_sizes_as_misses() {
    let mut grid = vec![vec![0u8; 2]; 2];

    let placed =
        place_items_in_container(&mut grid, &[None, Some((0, 1)), Some((-1, 2)), Some((1, 1))], 5);

    assert_eq!(placed, vec![None, None, None, slot(0, 0, false)]);
    assert_eq!(grid, vec![vec![1, 0], vec![0, 0]]);
}

#[test]
fn placed_loot_never_overlaps() {
    let mut grid = vec![vec![0u8; 4]; 4];
    let sizes = vec![Some((2, 1)), Some((1, 2)), Some((2, 2)), Some((1, 1)), Some((3, 1)), Some((1, 1))];

    let placed = place_items_in_container(&mut grid, &sizes, 10);

    let mut covered = vec![vec![0u8; 4]; 4];
    for (result, size) in placed.iter().zip(&sizes) {
        let (Some(result), Some((w, h))) = (result, size) else { continue };
        let (pw, ph) = if result.rotation { (*h, *w) } else { (*w, *h) };
        for r in result.y..result.y + ph {
            for c in result.x..result.x + pw {
                covered[r as usize][c as usize] += 1;
            }
        }
    }
    assert!(covered.iter().flatten().all(|&n| n <= 1));
    assert_eq!(covered, grid);
}

fn stack_template(max: Option<i32>, min_random: Option<i32>, max_random: Option<i32>) -> ItemView {
    ItemView {
        parent: None,
        width: None,
        height: None,
        stack_max_size: max,
        stack_min_random: min_random,
        stack_max_random: max_random,
        extra_size_up: None,
        extra_size_down: None,
        extra_size_left: None,
        extra_size_right: None,
        extra_size_force_add: None,
        grid_cells_h: None,
        grid_cells_v: None,
        stack_slot_first_filter_first: None,
        cartridges_first_filter: None,
        chambers_first_filter: None,
        slots: None,
        conflicting_items: None,
        caliber: None,
        ammo_caliber: None,
        def_ammo: None,
    }
}

#[test]
fn unstackable_items_spawn_one_at_a_time() {
    for _ in 0..50 {
        assert_eq!(random_stack_count(&stack_template(Some(1), Some(10), Some(20))), 1);
    }
}

#[test]
fn stacks_are_drawn_between_the_random_bounds() {
    let drawn: std::collections::HashSet<i32> = (0..1000)
        .map(|_| random_stack_count(&stack_template(Some(500), Some(5), Some(7))))
        .collect();
    assert_eq!(drawn, std::collections::HashSet::from([5, 6, 7]));

    assert_eq!(random_stack_count(&stack_template(None, None, None)), 0);
    assert_eq!(random_stack_count(&stack_template(Some(50), Some(9), Some(3))), 9);
    assert_eq!(random_stack_count(&stack_template(Some(50), None, Some(0))), 0);
}
