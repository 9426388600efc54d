use spt_native::loot::location_loot_generator::{
    containers_to_draw, create_weapon_root_and_children, forced_points_to_build,
    get_group_id_to_container_mappings, is_guaranteed_container, split_containers,
    tpls_to_add_to_container, static_loot_kind, loose_loot_kind, parent_chain_ends, LootKind,
    ContainerFacts,
};
use spt_native::loot::item_helper::{AMMO, AMMO_BOX, ARMOR, MAGAZINE, MONEY, WEAPON};
use spt_native::loot::loose_loot::{
    build_loose_point, check_loose_data, create_dynamic_loot_item, forced_dynamic_loot, loose_point_pool, split_loose_points, ForcedPoint,
    LoosePoint,
};
use spt_native::loot::models::{CounterState, Item, ItemView, Note, NoteLevel, SeasonalView, SptLootItem};
use spt_native::loot::static_loot::{
    check_static_data, claim_container, create_static_loot_item, plan_group_draw, trees_end, GroupDraw, fill_static_container, measure_loot, place_next, start_static_run, static_generation_step, StaticAction, StaticEvent,
    StaticStage,
};
use spt_native::loot::mongo_id::MongoIdGenerator;
use spt_native::string_map::StringMap;

fn facts(id: &str, certain: bool, always_spawn: bool, first_item_tpl: Option<&str>) -> ContainerFacts {
    ContainerFacts {
        id: id.to_owned(),
        certain,
        always_spawn,
        first_item_tpl: first_item_tpl.map(str::to_owned),
    }
}

fn item(id: &str, template: &str, parent_id: Option<&str>, slot_id: Option<&str>) -> Item {
    Item {
        id: id.to_owned(),
        template: template.to_owned(),
        parent_id: parent_id.map(str::to_owned),
        slot_id: slot_id.map(str::to_owned),
        desc: None,
        carried: serde_json::Value::Null,
    }
}

#[test]
fn containers_split_into_guaranteed_and_randomisable() {
    let never = vec!["safe_tpl".to_owned()];
    let containers = vec![
        facts("a", true, false, Some("box")),
        facts("b", false, false, Some("box")),
        facts("c", false, true, None),
        facts("d", false, false, Some("safe_tpl")),
        facts("e", false, false, None),
    ];

    assert!(is_guaranteed_container(&containers[0], &never));
    assert!(!is_guaranteed_container(&containers[1], &never));

    let (sure, random) = split_containers(&containers, &never);
    assert_eq!(sure, vec![0, 2, 3]);
    assert_eq!(random, vec![1, 4]);
}

#[test]
fn a_group_that_wants_more_than_its_pool_takes_it_all() {
    assert_eq!(containers_to_draw(3, 1), None);
    assert_eq!(containers_to_draw(1, 1), Some(1));
    assert_eq!(containers_to_draw(0, 4), Some(0));
    assert_eq!(containers_to_draw(-1, 0), Some(0));
}

#[test]
fn containers_are_grouped_by_their_statics_group() {
    let groups = vec![("g1".to_owned(), 2, 2), ("g2".to_owned(), 1, 3)];
    let containers = vec![
        ("c1".to_owned(), false),
        ("c2".to_owned(), false),
        ("c3".to_owned(), true),
        ("c4".to_owned(), false),
        ("c1".to_owned(), false),
        ("c5".to_owned(), false),
        ("unknown".to_owned(), false),
    ];
    let mut group_of: StringMap<Option<String>> = StringMap::new();
    group_of.insert("c1".to_owned(), Some("g1".to_owned()));
    group_of.insert("c2".to_owned(), None);
    group_of.insert("c3".to_owned(), Some("g2".to_owned()));
    group_of.insert("c4".to_owned(), Some("g9".to_owned()));
    group_of.insert("c5".to_owned(), Some("g1".to_owned()));

    let mut notes: Vec<Note> = Vec::new();
    let mappings = get_group_id_to_container_mappings(&groups, &containers, &Some(group_of), &mut notes);

    let members: Vec<(&str, &str, usize)> =
        mappings.members.iter().map(|(g, c, i)| (g.as_str(), c.as_str(), *i)).collect();
    assert_eq!(members, vec![("g1", "c1", 0), ("", "c2", 1), ("g9", "c4", 3), ("g1", "c5", 5)]);
    assert_eq!(notes.len(), 2);
    assert_eq!(notes[0].level, NoteLevel::Debug);
    assert_eq!(
        notes[0].message.as_deref(),
        Some("Container c3 with group: g2 had 100 % chance to spawn was picked as random container, skipping")
    );
    assert_eq!(notes[1].level, NoteLevel::Error);
    assert_eq!(notes[1].locale_key.as_deref(), Some("location-unable_to_find_container_in_statics_json"));
    assert_eq!(notes[1].args, vec![(String::new(), Some("unknown".to_owned()))]);
    assert_eq!(mappings.counts.get("g1"), Some(&2));
    assert!((1..=3).contains(mappings.counts.get("g2").unwrap()));
    assert_eq!(mappings.counts.get(""), Some(&-1));
    assert_eq!(mappings.counts.get("g9"), Some(&0));
    assert_eq!(mappings.counts.len(), 4);

    let mut none_notes: Vec<Note> = Vec::new();
    let none = get_group_id_to_container_mappings(&groups, &containers, &None, &mut none_notes);
    assert!(none.members.is_empty());
    assert_eq!(none.counts.len(), 3);
    assert_eq!(none_notes.len(), containers.len());
}

#[test]
fn seasonal_forced_points_are_counted_before_they_are_skipped() {
    let mut counter = CounterState::default();
    counter.max_counts.insert("pumpkin".to_owned(), 5);
    counter.max_counts.insert("key".to_owned(), 1);
    let seasonal = SeasonalView {
        seasonal_event_active: false,
        christmas_event_enabled: false,
        inactive_seasonal_items: vec!["pumpkin".to_owned()],
        christmas_container_ids: Vec::new(),
    };
    let tpls = vec![
        Some("pumpkin".to_owned()),
        Some("key".to_owned()),
        None,
        Some("key".to_owned()),
        Some("bolts".to_owned()),
    ];

    let keep = forced_points_to_build(&mut counter, &seasonal, &tpls);

    assert_eq!(keep, vec![false, true, false, false, true]);
    assert_eq!(counter.tracked_counts.get("pumpkin"), Some(&1));
    assert_eq!(counter.tracked_counts.get("key"), Some(&2));
    assert_eq!(counter.tracked_counts.get("bolts"), None);
}

#[test]
fn weapon_items_are_grafted_from_the_default_preset() {
    let preset = vec![
        item("p_root", "weapon_tpl", None, None),
        item("p_mag", "mag_tpl", Some("p_root"), Some("mod_magazine")),
        item("p_sight", "sight_tpl", Some("p_root"), Some("mod_sight")),
    ];
    let mut items = vec![item("root", "weapon_tpl", Some("container"), Some("main"))];
    let mut ids = MongoIdGenerator { machine: 7, counter: 0, process_id: 9 };

    let mut notes: Vec<Note> = Vec::new();
    let (root, magazine) = create_weapon_root_and_children(
        Some(&preset),
        "weapon_tpl",
        Some("container"),
        &mut items,
        &mut ids,
        &mut notes,
    )
    .ok()
    .unwrap();

    assert_eq!(root.id, "root");
    assert_eq!(items.len(), 3);
    assert_eq!(items[0].id, "root");
    assert_eq!(items[0].parent_id.as_deref(), Some("container"));
    assert_eq!(items[1].parent_id.as_deref(), Some("root"));
    assert_eq!(items[2].parent_id.as_deref(), Some("root"));
    // The magazine moves to the end of the list.
    assert_eq!(items[1].template, "sight_tpl");
    assert_eq!(items[2].template, "mag_tpl");
    assert_eq!(magazine, Some(2));
    // Every item but the root carries a fresh id.
    for item in &items[1..] {
        assert!(item.id != "p_mag" && item.id != "p_sight" && item.id != "p_root");
        assert_eq!(item.id.len(), 24);
    }
    assert!(notes.is_empty());
}

#[test]
fn an_empty_weapon_preset_is_an_error() {
    let mut items = vec![item("root", "weapon_tpl", None, None)];
    let mut ids = MongoIdGenerator { machine: 7, counter: 0, process_id: 9 };

    let mut notes: Vec<Note> = Vec::new();
    let error = create_weapon_root_and_children(Some(&[]), "weapon_tpl", Some("c"), &mut items, &mut ids, &mut notes)
        .err()
        .unwrap();

    assert_eq!(error.message, "preset not found for weapon_tpl, parentId: c");
    assert_eq!(items.len(), 1);
    assert_eq!(ids.counter, 0);
    assert_eq!(notes.len(), 1);
    assert_eq!(notes[0].locale_key.as_deref(), Some("location-preset_not_found"));
    assert_eq!(notes[0].args[0], ("tpl".to_owned(), Some("weapon_tpl".to_owned())));
    assert_eq!(notes[0].args[3], ("parentId".to_owned(), Some("c".to_owned())));
}

#[test]
fn a_weapon_without_a_preset_keeps_its_items() {
    let mut items = vec![item("root", "weapon_tpl", None, None)];
    let mut ids = MongoIdGenerator { machine: 7, counter: 0, process_id: 9 };

    let mut notes: Vec<Note> = Vec::new();
    let (root, magazine) =
        create_weapon_root_and_children(None, "weapon_tpl", None, &mut items, &mut ids, &mut notes).ok().unwrap();

    assert_eq!(root.id, "root");
    assert_eq!(magazine, None);
    assert_eq!(items.len(), 1);
    assert_eq!(notes.len(), 1);
    assert_eq!(notes[0].message.as_deref(), Some("createStaticLootItem() No preset found for weapon: weapon_tpl"));

    let mut empty: Vec<Item> = Vec::new();
    let error = create_weapon_root_and_children(None, "weapon_tpl", None, &mut empty, &mut ids, &mut notes)
        .err()
        .unwrap();
    assert_eq!(notes.len(), 3);
    assert_eq!(notes[2].locale_key.as_deref(), Some("location-missing_root_item"));
    assert_eq!(
        error.message,
        "A critical error occurred when generating loot, see server log for details"
    );
}

#[test]
fn forced_items_come_first_and_draws_respect_spawn_limits() {
    let mut counter = CounterState::default();
    counter.max_counts.insert("bolts".to_owned(), 1);
    counter.max_counts.insert("key".to_owned(), 0);
    let forced = vec![
        ("c1".to_owned(), "key".to_owned()),
        ("c2".to_owned(), "other".to_owned()),
        ("c1".to_owned(), "key".to_owned()),
        ("c1".to_owned(), "map".to_owned()),
    ];
    let drawn = vec!["key".to_owned(), "bolts".to_owned(), "bolts".to_owned(), "gun".to_owned()];

    let tpls = tpls_to_add_to_container(&mut counter, &forced, "c1", &drawn);

    assert_eq!(tpls, vec!["key", "map", "bolts", "gun"]);
    assert_eq!(counter.tracked_counts.get("bolts"), Some(&2));
    assert_eq!(counter.tracked_counts.get("key"), None);
}

fn view_with_parent(parent: Option<&str>) -> ItemView {
    ItemView {
        parent: parent.map(str::to_owned),
        width: None,
        height: None,
        stack_max_size: None,
        stack_min_random: None,
        stack_max_random: None,
        extra_size_up: None,
        extra_size_down: None,
        extra_size_left: None,
        extra_size_right: None,
        extra_size_force_add: None,
        grid_cells_h: None,
        grid_cells_v: None,
        stack_slot_first_filter_first: None,
        cartridges_first_filter: None,
        chambers_first_filter: None,
        slots: None,
        conflicting_items: None,
        caliber: None,
        ammo_caliber: None,
        def_ammo: None,
    }
}

#[test]
fn loot_items_are_built_by_base_class() {
    let mut view: StringMap<ItemView> = StringMap::new();
    for base in [MONEY, AMMO, WEAPON, AMMO_BOX, MAGAZINE, ARMOR] {
        view.insert(base.to_owned(), view_with_parent(None));
    }
    view.insert("roubles".to_owned(), view_with_parent(Some(MONEY)));
    view.insert("bullet".to_owned(), view_with_parent(Some(AMMO)));
    view.insert("rifle".to_owned(), view_with_parent(Some(WEAPON)));
    view.insert("box".to_owned(), view_with_parent(Some(AMMO_BOX)));
    view.insert("mag".to_owned(), view_with_parent(Some(MAGAZINE)));
    view.insert("vest".to_owned(), view_with_parent(Some(ARMOR)));
    view.insert("bolts".to_owned(), view_with_parent(None));

    assert_eq!(static_loot_kind(&view, "roubles"), LootKind::Stack);
    assert_eq!(static_loot_kind(&view, "bullet"), LootKind::Stack);
    assert_eq!(static_loot_kind(&view, "rifle"), LootKind::Weapon);
    assert_eq!(static_loot_kind(&view, "box"), LootKind::AmmoBox);
    assert_eq!(static_loot_kind(&view, "mag"), LootKind::Magazine);
    assert_eq!(static_loot_kind(&view, "vest"), LootKind::Armor);
    assert_eq!(static_loot_kind(&view, "bolts"), LootKind::Plain);
    assert_eq!(static_loot_kind(&view, "unknown"), LootKind::Plain);

    assert_eq!(loose_loot_kind(&view, "roubles"), LootKind::Stack);
    assert_eq!(loose_loot_kind(&view, "rifle"), LootKind::Plain);
    assert_eq!(loose_loot_kind(&view, "vest"), LootKind::Plain);
    assert_eq!(loose_loot_kind(&view, "mag"), LootKind::Magazine);
}

fn kinds_view() -> StringMap<ItemView> {
    let mut view: StringMap<ItemView> = StringMap::new();
    for base in [MONEY, AMMO, WEAPON, AMMO_BOX, MAGAZINE, ARMOR] {
        view.insert(base.to_owned(), view_with_parent(None));
    }
    let mut roubles = view_with_parent(Some(MONEY));
    roubles.stack_min_random = Some(10);
    roubles.stack_max_random = Some(20);
    roubles.width = Some(1);
    roubles.height = Some(1);
    view.insert("roubles".to_owned(), roubles);
    view.insert("rifle".to_owned(), view_with_parent(Some(WEAPON)));
    view.insert("box".to_owned(), view_with_parent(Some(AMMO_BOX)));
    view.insert("mag".to_owned(), view_with_parent(Some(MAGAZINE)));
    view.insert("vest".to_owned(), view_with_parent(Some(ARMOR)));
    let mut bolts = view_with_parent(None);
    bolts.width = Some(2);
    bolts.height = Some(1);
    view.insert("bolts".to_owned(), bolts);
    view
}

#[test]
fn static_loot_items_are_built_by_kind() {
    let view = kinds_view();
    let mut presets: StringMap<Vec<Item>> = StringMap::new();
    presets.insert(
        "rifle".to_owned(),
        vec![
            item("p_root", "rifle", None, None),
            item("p_mag", "mag", Some("p_root"), Some("mod_magazine")),
            item("p_sight", "sight", Some("p_root"), Some("mod_sight")),
        ],
    );
    presets.insert(
        "vest".to_owned(),
        vec![item("v_root", "vest", None, None), item("v_plate", "plate", Some("v_root"), Some("front"))],
    );
    let mut ids = MongoIdGenerator { machine: 1, counter: 0, process_id: 2 };
    let mut notes: Vec<Note> = Vec::new();

    let unknown = create_static_loot_item(&view, &presets, "nothing", Some("c"), false, &mut ids, &mut notes);
    assert!(matches!(unknown, Ok(None)));
    assert_eq!(notes[0].message.as_deref(), Some("Unable to process item: nothing. it lacks _props"));
    assert_eq!(ids.counter, 0);

    let stack = create_static_loot_item(&view, &presets, "roubles", Some("c"), false, &mut ids, &mut notes)
        .ok()
        .unwrap()
        .unwrap();
    assert_eq!(stack.items.len(), 1);
    assert_eq!(stack.items[0].parent_id.as_deref(), Some("c"));
    assert_eq!(stack.items[0].template, "roubles");
    assert!((10..=20).contains(&stack.stack_count.unwrap()));
    assert_eq!((stack.width, stack.height), (Some(1), Some(1)));
    assert!(!stack.sized_by_tree);

    let plain = create_static_loot_item(&view, &presets, "bolts", Some(""), false, &mut ids, &mut notes)
        .ok()
        .unwrap()
        .unwrap();
    assert_eq!(plain.items[0].parent_id, None);
    assert_eq!(plain.stack_count, None);
    assert_eq!((plain.width, plain.height), (Some(2), Some(1)));

    let weapon = create_static_loot_item(&view, &presets, "rifle", Some("c"), false, &mut ids, &mut notes)
        .ok()
        .unwrap()
        .unwrap();
    assert!(weapon.sized_by_tree);
    assert_eq!(weapon.items.len(), 3);
    assert_eq!(weapon.items[0].parent_id.as_deref(), Some("c"));
    assert_eq!(weapon.items[2].template, "mag");
    assert_eq!(weapon.items[2].parent_id.as_ref(), Some(&weapon.items[0].id));
    assert_eq!(
        notes.last().unwrap().message.as_deref(),
        Some("Magazine of weapon rifle left without cartridges")
    );

    let vest = create_static_loot_item(&view, &presets, "vest", Some("c"), false, &mut ids, &mut notes)
        .ok()
        .unwrap()
        .unwrap();
    assert_eq!(vest.items.len(), 2);
    assert_ne!(vest.items[0].id, "v_root");
    assert_eq!(vest.items[0].parent_id.as_deref(), Some("c"));
    assert_eq!(vest.items[1].parent_id.as_ref(), Some(&vest.items[0].id));

    let before = notes.len();
    let magazine = create_static_loot_item(&view, &presets, "mag", Some("c"), true, &mut ids, &mut notes)
        .ok()
        .unwrap()
        .unwrap();
    assert_eq!(magazine.items.len(), 1);
    assert_eq!(notes.len(), before + 1);

    let mut empty_presets: StringMap<Vec<Item>> = StringMap::new();
    empty_presets.insert("rifle".to_owned(), Vec::new());
    let error = create_static_loot_item(&view, &empty_presets, "rifle", Some("c"), false, &mut ids, &mut notes);
    assert_eq!(error.err().unwrap().message, "preset not found for rifle, parentId: c");
}

#[test]
fn items_are_placed_one_at_a_time_until_placing_gives_up() {
    let mut grid = vec![vec![0u8; 2]; 2];

    let (slot, failed) = place_next(&mut grid, Some((2, 1)), 0, 1);
    let slot = slot.unwrap();
    assert_eq!((slot.x, slot.y, slot.rotation), (0, 0, false));
    assert_eq!(failed, 0);
    assert_eq!(grid, vec![vec![1, 1], vec![0, 0]]);

    let (slot, failed) = place_next(&mut grid, Some((1, 2)), failed, 1);
    let slot = slot.unwrap();
    assert_eq!((slot.x, slot.y, slot.rotation), (0, 1, true));
    assert_eq!(grid, vec![vec![1, 1], vec![1, 1]]);

    let (slot, failed) = place_next(&mut grid, Some((1, 1)), failed, 1);
    assert!(slot.is_none());
    assert_eq!(failed, 1);
    let (slot, failed) = place_next(&mut grid, None, failed, 1);
    assert!(slot.is_none());
    assert_eq!(failed, 2);
    let (slot, failed) = place_next(&mut grid, Some((1, 1)), failed, 1);
    assert!(slot.is_none());
    assert_eq!(failed, -1);
    let (slot, failed) = place_next(&mut vec![vec![0u8; 2]; 2], Some((1, 1)), failed, 1);
    assert!(slot.is_none());
    assert_eq!(failed, -1);
}

#[test]
fn static_runs_fill_guaranteed_then_randomisable_containers() {
    let (state, action) = start_static_run(vec![0, 1], vec![2], false, true);
    assert_eq!(action, StaticAction::Fill(0));
    let (state, action) = static_generation_step(state, StaticEvent::Filled(3));
    assert_eq!(action, StaticAction::Fill(1));
    let (state, action) = static_generation_step(state, StaticEvent::Filled(2));
    assert_eq!(action, StaticAction::Fill(2));
    assert_eq!(state.stage, StaticStage::AllRandomisable);
    let (state, action) = static_generation_step(state, StaticEvent::Filled(5));
    assert_eq!(action, StaticAction::Finish);
    assert_eq!(state.static_loot_item_count, 10);
    assert_eq!(state.static_container_count, 2);
}

#[test]
fn static_runs_fill_the_group_picks_and_count_them() {
    let (state, action) = start_static_run(vec![0], vec![1, 2], true, true);
    assert_eq!(action, StaticAction::Fill(0));
    let (state, action) = static_generation_step(state, StaticEvent::Filled(4));
    assert_eq!(action, StaticAction::DrawGroups);
    let (state, action) = static_generation_step(state, StaticEvent::GroupsDrawn(vec![2, 2]));
    assert_eq!(action, StaticAction::Fill(2));
    let (state, action) = static_generation_step(state, StaticEvent::Filled(1));
    assert_eq!(action, StaticAction::Fill(2));
    let (state, action) = static_generation_step(state, StaticEvent::Filled(0));
    assert_eq!(action, StaticAction::Finish);
    assert_eq!(state.static_loot_item_count, 5);
    assert_eq!(state.static_container_count, 3);

    let (state, action) = start_static_run(Vec::new(), vec![1], true, false);
    assert_eq!(action, StaticAction::Finish);
    assert_eq!(state.static_container_count, 0);
}

#[test]
fn loose_items_are_built_from_the_spawn_point() {
    let view = kinds_view();
    let mut ids = MongoIdGenerator { machine: 1, counter: 0, process_id: 2 };
    let mut notes: Vec<Note> = Vec::new();
    let pool = vec![
        item("a", "bolts", None, None),
        item("b", "nut", Some("a"), Some("mod")),
        item("c", "other", None, None),
    ];

    let built = create_dynamic_loot_item(&view, &pool[0], &pool, &[], false, &mut ids, &mut notes).ok().unwrap();
    assert_eq!(built.items.len(), 2);
    assert_ne!(built.items[0].id, "a");
    assert_eq!(built.items[1].parent_id.as_ref(), Some(&built.items[0].id));

    let stripped =
        create_dynamic_loot_item(&view, &pool[0], &pool, &["bolts".to_owned()], false, &mut ids, &mut notes)
            .ok()
            .unwrap();
    assert_eq!(stripped.items.len(), 1);

    let money = item("m", "roubles", None, None);
    let stack = create_dynamic_loot_item(&view, &money, &[money.clone()], &[], false, &mut ids, &mut notes)
        .ok()
        .unwrap();
    assert_ne!(stack.items[0].id, "m");
    assert!((10..=20).contains(&stack.stack_count.unwrap()));

    let unknown = item("u", "nothing", None, None);
    let error = create_dynamic_loot_item(&view, &unknown, &[unknown.clone()], &[], false, &mut ids, &mut notes);
    assert_eq!(error.err().unwrap().message, "Item tpl: nothing cannot be found in database");
    assert_eq!(notes.last().unwrap().level, NoteLevel::Error);
}

#[test]
fn forced_loose_loot_keeps_the_first_point_of_each_template_id() {
    let view = kinds_view();
    let mut ids = MongoIdGenerator { machine: 1, counter: 0, process_id: 2 };
    let mut notes: Vec<Note> = Vec::new();
    let mut counter = CounterState::default();
    counter.max_counts.insert("bolts".to_owned(), 10);
    let seasonal = SeasonalView {
        seasonal_event_active: true,
        christmas_event_enabled: false,
        inactive_seasonal_items: Vec::new(),
        christmas_container_ids: Vec::new(),
    };
    let point = |id: &str, tpl: &str| ForcedPoint {
        has_template: true,
        template_id: Some(id.to_owned()),
        items: vec![item("x", tpl, None, None)],
    };
    let points = vec![
        point("p1", "bolts"),
        point("p1", "bolts"),
        ForcedPoint { has_template: false, template_id: None, items: Vec::new() },
        point("p2", "bolts"),
    ];

    let built = forced_dynamic_loot(
        &points,
        &mut counter,
        &seasonal,
        &view,
        &[],
        &[false, false, false, false],
        "bigmap",
        &mut ids,
        &mut notes,
    )
    .ok()
    .unwrap();

    let kept: Vec<usize> = built.iter().map(|(i, _, _)| *i).collect();
    assert_eq!(kept, vec![0, 3]);
    assert_eq!(counter.tracked_counts.get("bolts"), Some(&3));
    assert_eq!(
        notes.last().unwrap().message.as_deref(),
        Some("Attempted to add a forced loot location with Id: p1 to map bigmap that already has that id in use, skipping")
    );
}

#[test]
fn a_container_is_filled_one_item_at_a_time() {
    let view = kinds_view();
    let presets: StringMap<Vec<Item>> = StringMap::new();
    let mut ids = MongoIdGenerator { machine: 1, counter: 0, process_id: 2 };
    let mut notes: Vec<Note> = Vec::new();
    let mut grid = vec![vec![0u8; 2]; 2];
    let tpls = vec![
        "bolts".to_owned(),
        "nothing".to_owned(),
        "roubles".to_owned(),
        "bolts".to_owned(),
        "bolts".to_owned(),
        "roubles".to_owned(),
        "roubles".to_owned(),
    ];

    let placed = fill_static_container(
        &mut grid,
        &tpls,
        "crate",
        "container",
        &view,
        &presets,
        &[],
        &[false; 7],
        0,
        &mut ids,
        &mut notes,
    )
    .ok()
    .unwrap();

    // bolts at (0, 0), roubles at (0, 1); the next bolts miss (1 miss), the
    // next miss gives up, and the last roubles is never built.
    assert_eq!(placed.len(), 2);
    assert_eq!((placed[0].location.x, placed[0].location.y), (Some(0), Some(0)));
    assert_eq!((placed[1].location.x, placed[1].location.y), (Some(0), Some(1)));
    assert_eq!(placed[0].items[0].slot_id.as_deref(), Some("main"));
    assert_eq!(placed[0].items[0].parent_id.as_deref(), Some("container"));
    assert!(placed[1].stack_count.is_some());
    assert_eq!(grid, vec![vec![1, 1], vec![1, 0]]);
    assert_eq!(notes[0].message.as_deref(), Some("Unable to process item: nothing. it lacks _props"));
    assert_eq!(ids.counter, 4);
}

#[test]
fn loot_is_measured_only_when_its_tree_ends() {
    let mut view = kinds_view();
    let mut scope = view_with_parent(None);
    scope.extra_size_right = Some(2);
    view.insert("scope".to_owned(), scope);
    let items = vec![item("a", "bolts", None, None), item("b", "scope", Some("a"), Some("mod"))];
    assert_eq!(measure_loot(&view, &items, "a"), Some((4, 1)));
    assert_eq!(measure_loot(&view, &items, "missing"), None);

    let looped = vec![item("a", "bolts", Some("b"), None), item("b", "scope", Some("a"), Some("mod"))];
    assert_eq!(measure_loot(&view, &looped, "a"), None);
}

fn loot(id: &str, tpl: &str, parent: Option<&str>, key: Option<&str>) -> SptLootItem {
    SptLootItem { item: item(id, tpl, parent, None), composed_key: key.map(str::to_owned) }
}

#[test]
fn loose_points_are_split_for_the_draw() {
    let point = |id: &str, always_spawn: bool, certain: bool| LoosePoint {
        template_id: id.to_owned(),
        always_spawn,
        certain,
    };
    let points = vec![point("a", false, true), point("b", false, false), point("bad", false, true), point("c", true, true)];
    let mut notes: Vec<Note> = Vec::new();

    let (guaranteed, drawable) = split_loose_points(&points, &["bad".to_owned()], &mut notes);

    assert_eq!(guaranteed, vec![0]);
    assert_eq!(drawable, vec![1]);
    assert_eq!(notes[0].message.as_deref(), Some("Ignoring loose loot location: bad"));
}

#[test]
fn a_loose_point_pool_keeps_lootable_items_and_their_entries() {
    let seasonal = SeasonalView {
        seasonal_event_active: false,
        christmas_event_enabled: false,
        inactive_seasonal_items: vec!["pumpkin".to_owned()],
        christmas_container_ids: Vec::new(),
    };
    let items = vec![loot("1", "bolts", None, Some("k1")), loot("2", "pumpkin", None, Some("k2")), loot("3", "banned", None, None)];
    let keys = vec![Some("k2".to_owned()), Some("k1".to_owned()), None];
    let mut notes: Vec<Note> = Vec::new();

    let (kept, entries) =
        loose_point_pool(&items, &keys, &seasonal, &["banned".to_owned()], &Some("p".to_owned()), &mut notes).unwrap();
    assert_eq!(kept, vec![0]);
    assert_eq!(entries, vec![1]);
    assert!(notes.is_empty());

    let none = loose_point_pool(&items[1..], &keys, &seasonal, &["banned".to_owned()], &Some("p".to_owned()), &mut notes);
    assert!(none.is_none());
    assert_eq!(notes[0].locale_key.as_deref(), Some("location-spawnpoint_missing_items"));

    let empty = loose_point_pool(&items, &[Some("k9".to_owned())], &seasonal, &[], &None, &mut notes);
    assert!(empty.is_none());
    assert_eq!(notes[1].locale_key.as_deref(), Some("location-loot_pool_is_empty_skipping"));
}

#[test]
fn a_loose_point_builds_its_chosen_item_within_its_limit() {
    let view = kinds_view();
    let mut ids = MongoIdGenerator { machine: 1, counter: 0, process_id: 2 };
    let mut notes: Vec<Note> = Vec::new();
    let mut counter = CounterState::default();
    counter.max_counts.insert("bolts".to_owned(), 1);
    let items = vec![loot("1", "bolts", None, Some("k1")), loot("2", "nut", Some("1"), None)];

    let (built, stack) = build_loose_point(
        &items, Some("k1"), &Some("loc".to_owned()), &view, &[], false, &mut counter, &mut ids, &mut notes,
    )
    .ok()
    .unwrap()
    .unwrap();
    assert_eq!(built.len(), 2);
    assert_eq!(built[0].template, "bolts");
    assert_eq!(stack, None);
    assert_eq!(counter.tracked_counts.get("bolts"), Some(&1));

    let over = build_loose_point(
        &items, Some("k1"), &Some("loc".to_owned()), &view, &[], false, &mut counter, &mut ids, &mut notes,
    );
    assert!(matches!(over, Ok(None)));
    assert_eq!(counter.tracked_counts.get("bolts"), Some(&2));

    let missing = build_loose_point(
        &items, Some("k9"), &Some("loc".to_owned()), &view, &[], false, &mut counter, &mut ids, &mut notes,
    );
    assert!(matches!(missing, Ok(None)));
    assert_eq!(
        notes.last().unwrap().message.as_deref(),
        Some("Unable to find item with composed key: k9, skipping spawn point: loc ")
    );
}

#[test]
fn a_container_item_takes_a_fresh_id_for_its_loot() {
    let mut ids = MongoIdGenerator { machine: 1, counter: 0, process_id: 2 };
    let mut items = vec![loot("old", "crate", None, None), loot("inner", "thing", Some("old"), None)];

    let (parent_id, tpl) = claim_container(&mut items, "c1", &mut ids).ok().unwrap();

    assert_eq!(tpl, "crate");
    assert_eq!(items[0].item.id, parent_id);
    assert_ne!(parent_id, "old");
    assert_eq!(items[1].item.id, "inner");
    assert_eq!(ids.counter, 1);

    let mut empty: Vec<SptLootItem> = Vec::new();
    let error = claim_container(&mut empty, "c2", &mut ids).err().unwrap();
    assert_eq!(error.message, "Static container: c2 holds no items, unable to add loot");
    assert_eq!(ids.counter, 2);
}

#[test]
fn a_container_without_templates_to_add_warns() {
    let view = kinds_view();
    let presets: StringMap<Vec<Item>> = StringMap::new();
    let mut ids = MongoIdGenerator { machine: 1, counter: 0, process_id: 2 };
    let mut notes: Vec<Note> = Vec::new();
    let mut grid = vec![vec![0u8; 2]; 2];

    let placed = fill_static_container(
        &mut grid, &[], "crate", "container", &view, &presets, &[], &[], 3, &mut ids, &mut notes,
    )
    .ok()
    .unwrap();

    assert!(placed.is_empty());
    assert_eq!(notes[0].level, NoteLevel::Warning);
    assert_eq!(notes[0].message.as_deref(), Some("Added no items to container: crate"));
}

#[test]
fn missing_static_data_is_reported_and_fatal_where_it_must_be() {
    let mut notes: Vec<Note> = Vec::new();
    let error = check_static_data("bigmap", false, true, true, &mut notes).err().unwrap();
    assert_eq!(error.message, "Unable to find static weapon data for map: bigmap");
    assert_eq!(notes[0].locale_key.as_deref(), Some("location-unable_to_find_static_weapon_for_map"));
    assert_eq!(notes[0].args, vec![(String::new(), Some("bigmap".to_owned()))]);

    let mut notes: Vec<Note> = Vec::new();
    let error = check_static_data("bigmap", true, false, false, &mut notes).err().unwrap();
    assert_eq!(error.message, "Unable to find static container data for map: bigmap");
    assert_eq!(notes.len(), 2);
    assert_eq!(notes[0].locale_key.as_deref(), Some("location-unable_to_find_static_container_for_map"));
    assert_eq!(notes[1].locale_key.as_deref(), Some("location-unable_to_find_forced_static_data_for_map"));

    let mut notes: Vec<Note> = Vec::new();
    assert!(check_static_data("bigmap", true, true, false, &mut notes).is_ok());
    assert_eq!(notes.len(), 1);
    let mut notes: Vec<Note> = Vec::new();
    assert!(check_static_data("bigmap", true, true, true, &mut notes).is_ok());
    assert!(notes.is_empty());
}

#[test]
fn spawn_limits_hold_across_containers_filled_in_turn() {
    let mut counter = CounterState::default();
    counter.max_counts.insert("bolts".to_owned(), 2);
    let forced: Vec<(String, String)> = Vec::new();
    let drawn_first = vec!["bolts".to_owned(), "nuts".to_owned(), "bolts".to_owned(), "bolts".to_owned()];
    let drawn_second = vec!["bolts".to_owned(), "nuts".to_owned()];

    let first = tpls_to_add_to_container(&mut counter, &forced, "c1", &drawn_first);
    let second = tpls_to_add_to_container(&mut counter, &forced, "c2", &drawn_second);

    assert_eq!(first, vec!["bolts", "nuts", "bolts"]);
    assert_eq!(second, vec!["nuts"]);
    assert_eq!(counter.tracked_counts.get("bolts"), Some(&4));
}

#[test]
fn parent_chains_and_item_trees_are_checked_before_they_are_walked() {
    let mut view = kinds_view();
    assert!(parent_chain_ends(&view, "roubles"));
    assert!(parent_chain_ends(&view, "unknown"));
    view.insert("loop_a".to_owned(), view_with_parent(Some("loop_b")));
    view.insert("loop_b".to_owned(), view_with_parent(Some("loop_a")));
    assert!(!parent_chain_ends(&view, "loop_a"));

    let tree = vec![item("a", "bolts", None, None), item("b", "nut", Some("a"), None)];
    assert!(trees_end(&tree));
    let looped = vec![item("a", "bolts", Some("b"), None), item("b", "nut", Some("a"), None)];
    assert!(!trees_end(&looped));
}

#[test]
fn container_groups_are_drawn_by_their_plan() {
    let mut notes: Vec<Note> = Vec::new();
    assert_eq!(plan_group_draw("g1", 0, 3, &mut notes), GroupDraw::Skip);
    assert!(notes.is_empty());
    assert_eq!(plan_group_draw("g1", 2, 0, &mut notes), GroupDraw::Skip);
    assert_eq!(
        notes[0].message.as_deref(),
        Some("Group: g1 has no containers with < 100 % spawn chance to choose from, skipping")
    );
    assert_eq!(plan_group_draw("", -1, 3, &mut notes), GroupDraw::RollEach);
    assert_eq!(plan_group_draw("g1", 5, 3, &mut notes), GroupDraw::TakeAll);
    assert_eq!(
        notes[1].message.as_deref(),
        Some("Group: g1 wants: 5 containers but pool only has: 3, adding what's available")
    );
    assert_eq!(plan_group_draw("g1", 2, 3, &mut notes), GroupDraw::Draw(2));
    assert_eq!(plan_group_draw("g1", -4, 3, &mut notes), GroupDraw::Draw(0));
    assert_eq!(notes.len(), 2);
}

#[test]
fn loose_items_carry_the_footprint_of_their_tree() {
    let mut view = kinds_view();
    let mut scope = view_with_parent(None);
    scope.extra_size_right = Some(2);
    view.insert("scope".to_owned(), scope);
    let mut ids = MongoIdGenerator { machine: 1, counter: 0, process_id: 2 };
    let mut notes: Vec<Note> = Vec::new();
    let pool = vec![item("a", "bolts", None, None), item("b", "scope", Some("a"), Some("mod"))];

    let built = create_dynamic_loot_item(&view, &pool[0], &pool, &[], false, &mut ids, &mut notes).ok().unwrap();
    assert_eq!((built.width, built.height), (Some(4), Some(1)));

    let stripped =
        create_dynamic_loot_item(&view, &pool[0], &pool, &["bolts".to_owned()], false, &mut ids, &mut notes)
            .ok()
            .unwrap();
    assert_eq!((stripped.width, stripped.height), (Some(2), Some(1)));
}

#[test]
fn incomplete_loose_loot_data_is_fatal() {
    assert!(check_loose_data("bigmap", true, true, true).is_ok());
    let error = check_loose_data("bigmap", true, false, true).err().unwrap();
    assert_eq!(error.message, "Loose loot data for map: bigmap is incomplete");
}
