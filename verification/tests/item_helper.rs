use spt_native::loot::item_helper::{
    armor_item_can_hold_mods, get_container_mapping, get_item, get_item_size,
    get_item_with_children, is_of_baseclass, is_of_baseclasses, remap_root_item_id,
    reparent_item_and_children, replace_ids, to_loot_item, ARMOR, HEADWEAR, VEST,
};
use spt_native::loot::models::{Item, ItemView};
use spt_native::loot::mongo_id::{is_valid, MongoIdGenerator};
use spt_native::string_map::StringMap;

const ITEM_NODE: &str = "54009119af1c881c07000029";
const ARMOR_VEST_TPL: &str = "111111111111111111111111";
const HELMET_TPL: &str = "222222222222222222222222";
const MOD_PLAIN_A_TPL: &str = "333333333333333333333333";
const MOD_PLAIN_B_TPL: &str = "444444444444444444444444";
const MOD_FORCED_A_TPL: &str = "555555555555555555555555";
const MOD_FORCED_B_TPL: &str = "666666666666666666666666";
const CONTAINER_TPL: &str = "777777777777777777777777";
const ORPHAN_TPL: &str = "888888888888888888888888";

fn blank_view() -> ItemView {
    ItemView {
        parent: None,
        width: None,
        height: None,
        stack_max_size: None,
        stack_min_random: None,
        stack_max_random: None,
        extra_size_up: None,
        extra_size_down: None,
        extra_size_left: None,
        extra_size_right: None,
        extra_size_force_add: None,
        grid_cells_h: None,
        grid_cells_v: None,
        stack_slot_first_filter_first: None,
        cartridges_first_filter: None,
        chambers_first_filter: None,
        slots: None,
        conflicting_items: None,
        caliber: None,
        ammo_caliber: None,
        def_ammo: None,
    }
}

fn child_of(parent: &str) -> ItemView {
    ItemView { parent: Some(parent.to_owned()), ..blank_view() }
}

/// Extra sizes up, down, left, right, and whether they are forced.
fn mod_view(up: i32, down: i32, left: i32, right: i32, forced: Option<bool>) -> ItemView {
    ItemView {
        extra_size_up: Some(up),
        extra_size_down: Some(down),
        extra_size_left: Some(left),
        extra_size_right: Some(right),
        extra_size_force_add: forced,
        ..child_of(HEADWEAR)
    }
}

fn fixture() -> StringMap<ItemView> {
    let mut view = StringMap::new();
    // Parent chain: ITEM_NODE <- ARMOR <- ARMOR_VEST_TPL, ITEM_NODE <- HEADWEAR <- HELMET_TPL.
    view.insert(ITEM_NODE.to_owned(), blank_view());
    view.insert(ARMOR.to_owned(), child_of(ITEM_NODE));
    view.insert(HEADWEAR.to_owned(), child_of(ITEM_NODE));
    view.insert(
        ARMOR_VEST_TPL.to_owned(),
        ItemView { width: Some(3), height: Some(4), ..child_of(ARMOR) },
    );
    view.insert(
        HELMET_TPL.to_owned(),
        ItemView { width: Some(2), height: Some(4), ..child_of(HEADWEAR) },
    );
    // Non-forced mods: the biggest of each direction wins.
    view.insert(MOD_PLAIN_A_TPL.to_owned(), mod_view(1, 0, 1, 0, Some(false)));
    view.insert(MOD_PLAIN_B_TPL.to_owned(), mod_view(2, 0, 0, 1, None));
    // Forced mods: every direction sums, across items.
    view.insert(MOD_FORCED_A_TPL.to_owned(), mod_view(1, 1, 1, 1, Some(true)));
    view.insert(MOD_FORCED_B_TPL.to_owned(), mod_view(0, 1, 2, 0, Some(true)));
    view.insert(
        CONTAINER_TPL.to_owned(),
        ItemView { grid_cells_h: Some(5), grid_cells_v: Some(3), ..child_of(ITEM_NODE) },
    );
    // Parent points at a tpl that is not in the view at all.
    view.insert(ORPHAN_TPL.to_owned(), child_of("999999999999999999999999"));
    view
}

fn item(id: &str, template: &str, parent_id: Option<&str>) -> Item {
    Item {
        id: id.to_owned(),
        template: template.to_owned(),
        parent_id: parent_id.map(str::to_owned),
        slot_id: None,
        desc: None,
        carried: serde_json::Value::Null,
    }
}

fn ids(items: &[Item]) -> Vec<&str> {
    items.iter().map(|item| item.id.as_str()).collect()
}

fn id_source() -> MongoIdGenerator {
    MongoIdGenerator::new(4242)
}

/// Root `r` with children `a` then `b`; `a` has children `a1` then `a2`.
fn two_level_tree() -> Vec<Item> {
    vec![
        item("r", HELMET_TPL, None),
        item("a", MOD_PLAIN_A_TPL, Some("r")),
        item("b", MOD_PLAIN_B_TPL, Some("r")),
        item("a1", MOD_FORCED_A_TPL, Some("a")),
        item("a2", MOD_FORCED_B_TPL, Some("a")),
    ]
}

#[test]
fn get_item_returns_the_view_for_known_tpls_only() {
    let view = fixture();

    assert_eq!(get_item(&view, HELMET_TPL).unwrap().width, Some(2));
    assert!(get_item(&view, "999999999999999999999999").is_none());
}

#[test]
fn is_of_baseclass_matches_transitively_through_parents() {
    let view = fixture();

    // Direct parent, then the grandparent two links up.
    assert!(is_of_baseclass(&view, ARMOR_VEST_TPL, ARMOR));
    assert!(is_of_baseclass(&view, ARMOR_VEST_TPL, ITEM_NODE));
    assert!(is_of_baseclass(&view, ARMOR, ITEM_NODE));

    assert!(!is_of_baseclass(&view, ARMOR_VEST_TPL, HEADWEAR));
}

/// The base-class cache is seeded from an item's parent, never from the
/// item's own id, so an item is never its own base class.
#[test]
fn is_of_baseclass_is_not_self_inclusive() {
    let view = fixture();

    assert!(!is_of_baseclass(&view, ARMOR_VEST_TPL, ARMOR_VEST_TPL));
    assert!(!is_of_baseclass(&view, ARMOR, ARMOR));
}

#[test]
fn is_of_baseclass_is_false_for_unknown_tpls_and_unknown_parents() {
    let view = fixture();

    // Tpl missing from the view entirely.
    assert!(!is_of_baseclass(&view, "999999999999999999999999", ARMOR));
    // Tpl present, but its parent chain dead-ends outside the view.
    assert!(!is_of_baseclass(&view, ORPHAN_TPL, ITEM_NODE));
    // A root node has no parent to walk.
    assert!(!is_of_baseclass(&view, ITEM_NODE, ARMOR));
}

#[test]
fn is_of_baseclasses_matches_any_of_the_supplied_classes() {
    let view = fixture();

    assert!(is_of_baseclasses(&view, HELMET_TPL, &[ARMOR, HEADWEAR]));
    assert!(!is_of_baseclasses(&view, HELMET_TPL, &[ARMOR, VEST]));
    assert!(!is_of_baseclasses(&view, HELMET_TPL, &[]));
}

#[test]
fn armor_item_can_hold_mods_covers_headwear_vest_and_armor() {
    let view = fixture();

    assert!(armor_item_can_hold_mods(&view, HELMET_TPL));
    assert!(armor_item_can_hold_mods(&view, ARMOR_VEST_TPL));
    assert!(!armor_item_can_hold_mods(&view, CONTAINER_TPL));
}

#[test]
fn get_item_with_children_returns_the_root_then_lifo_order() {
    let result = get_item_with_children(&two_level_tree(), "r");

    // Children are pushed in input order and popped last-in-first-out.
    assert_eq!(ids(&result), vec!["r", "b", "a", "a2", "a1"]);
}

#[test]
fn get_item_with_children_from_a_mid_tree_node_skips_its_siblings() {
    let result = get_item_with_children(&two_level_tree(), "a");

    assert_eq!(ids(&result), vec!["a", "a2", "a1"]);
}

#[test]
fn get_item_with_children_is_empty_when_the_root_is_missing() {
    assert!(get_item_with_children(&two_level_tree(), "nope").is_empty());
}

#[test]
fn replace_ids_gives_every_item_a_fresh_id_and_keeps_the_hierarchy() {
    let mut items = two_level_tree();
    let original = ids(&items)
        .iter()
        .map(|id| (*id).to_owned())
        .collect::<Vec<_>>();

    replace_ids(&mut items, &mut id_source());

    for (index, old_id) in original.iter().enumerate() {
        assert_ne!(&items[index].id, old_id);
        assert_eq!(items[index].id.len(), 24);
    }
    // r <- a, r <- b, a <- a1, a <- a2 all still hold, under the new ids.
    assert_eq!(items[1].parent_id.as_ref(), Some(&items[0].id));
    assert_eq!(items[2].parent_id.as_ref(), Some(&items[0].id));
    assert_eq!(items[3].parent_id.as_ref(), Some(&items[1].id));
    assert_eq!(items[4].parent_id.as_ref(), Some(&items[1].id));
}

#[test]
fn replace_ids_reparents_children_listed_before_their_parent() {
    let mut items = vec![
        item("child", MOD_PLAIN_A_TPL, Some("root")),
        item("root", HELMET_TPL, None),
    ];

    replace_ids(&mut items, &mut id_source());

    assert_eq!(items[0].parent_id.as_ref(), Some(&items[1].id));
}

#[test]
fn remap_root_item_id_touches_only_the_root_and_its_direct_children() {
    let mut items = two_level_tree();

    let new_root_id = remap_root_item_id(&mut items, &mut id_source());

    assert_eq!(new_root_id.len(), 24);
    assert_eq!(items[0].id, new_root_id);
    assert_eq!(items[1].parent_id.as_deref(), Some(new_root_id.as_str()));
    assert_eq!(items[2].parent_id.as_deref(), Some(new_root_id.as_str()));
    // Everything below the first level is left alone.
    assert_eq!(ids(&items)[1..], ["a", "b", "a1", "a2"]);
    assert_eq!(items[3].parent_id.as_deref(), Some("a"));
    assert_eq!(items[4].parent_id.as_deref(), Some("a"));
}

#[test]
fn reparent_item_and_children_grafts_the_tree_under_a_new_root() {
    let mut items = two_level_tree();
    let root_item = item("new_root", ARMOR_VEST_TPL, None);

    let result = reparent_item_and_children(&root_item, &mut items, &mut id_source());

    // Element 0 is replaced wholesale by the supplied root, template and all.
    assert_eq!(result[0].id, "new_root");
    assert_eq!(result[0].template, ARMOR_VEST_TPL);
    // Every child got a fresh id but still points at the new root / its remapped parent.
    for child in &result[1..] {
        assert_eq!(child.id.len(), 24);
    }
    assert_eq!(result[1].parent_id.as_deref(), Some("new_root"));
    assert_eq!(result[2].parent_id.as_deref(), Some("new_root"));
    assert_eq!(result[3].parent_id.as_ref(), Some(&result[1].id));
    assert_eq!(result[4].parent_id.as_ref(), Some(&result[1].id));
    // The in-place list and the returned list agree.
    assert_eq!(ids(&items), ids(&result));
}

/// The parent mapping is created on demand, so a child listed before its
/// parent still lands on the id that parent goes on to take.
#[test]
fn reparent_item_and_children_maps_a_parent_listed_after_its_child() {
    let mut items = vec![
        item("r", HELMET_TPL, None),
        item("c", MOD_PLAIN_A_TPL, Some("p")),
        item("p", MOD_PLAIN_B_TPL, Some("r")),
    ];
    let root_item = item("new_root", ARMOR_VEST_TPL, None);

    let result = reparent_item_and_children(&root_item, &mut items, &mut id_source());

    // "p" had no mapping yet when "c" was processed, and got that same fresh id when its own
    // turn came.
    assert_eq!(result[2].id.len(), 24);
    assert_ne!(result[2].id, "p");
    assert_eq!(result[1].parent_id.as_ref(), Some(&result[2].id));
    assert_eq!(result[2].parent_id.as_deref(), Some("new_root"));
}

#[test]
fn get_item_size_maxes_non_forced_extra_size_and_sums_forced() {
    let view = fixture();
    let items = two_level_tree();

    // Root 2x4. Non-forced: up max(1,2)=2, down 0, left max(1,0)=1, right max(0,1)=1.
    // Forced: up 1+0=1, down 1+1=2, left 1+2=3, right 1+0=1.
    // Width = 2 + 1 + 1 + 3 + 1, height = 4 + 2 + 0 + 1 + 2.
    let size = get_item_size(&view, &items, "r").unwrap();

    assert_eq!(size, (8, 9));
}

#[test]
fn get_item_size_ignores_items_outside_the_requested_subtree() {
    let view = fixture();
    let items = two_level_tree();

    // "b" has no children, no width/height of its own, and extra size up 2 / right 1 — the
    // sibling "a" branch must not count towards it.
    let size = get_item_size(&view, &items, "b").unwrap();

    assert_eq!(size, (1, 2));
}

#[test]
fn get_item_size_is_none_when_the_root_or_its_template_is_unknown() {
    let view = fixture();
    let items = two_level_tree();

    assert!(get_item_size(&view, &items, "nope").is_none());
    assert!(
        get_item_size(&view, &[item("r", "999999999999999999999999", None)], "r").is_none()
    );
}

#[test]
fn get_container_mapping_builds_blank_rows_of_cells() {
    let map = get_container_mapping(&fixture(), CONTAINER_TPL).unwrap();

    // CellsV rows of CellsH cells, all free.
    assert_eq!(map.len(), 3);
    assert!(map.iter().all(|row| row == &vec![0u8; 5]));
}

#[test]
fn get_container_mapping_errors_without_a_grid() {
    let view = fixture();

    assert!(get_container_mapping(&view, HELMET_TPL).is_err());
    assert!(get_container_mapping(&view, "999999999999999999999999").is_err());
}

#[test]
fn to_loot_item_copies_fields_and_extras_with_no_composed_key() {
    let carried: serde_json::Value = serde_json::from_str(
        r#"{"location":3,"upd":{"StackObjectsCount":2},"modAddedField":"kept"}"#,
    )
    .unwrap();
    let source = Item {
        id: "aaaaaaaaaaaaaaaaaaaaaaaa".to_owned(),
        template: HELMET_TPL.to_owned(),
        parent_id: Some("bbbbbbbbbbbbbbbbbbbbbbbb".to_owned()),
        slot_id: Some("main".to_owned()),
        desc: None,
        carried,
    };

    let loot_item = to_loot_item(&source);

    assert!(loot_item.composed_key.is_none());
    assert_eq!(loot_item.item.id, "aaaaaaaaaaaaaaaaaaaaaaaa");
    assert_eq!(loot_item.item.template, HELMET_TPL);
    assert_eq!(loot_item.item.parent_id.as_deref(), Some("bbbbbbbbbbbbbbbbbbbbbbbb"));
    assert_eq!(loot_item.item.slot_id.as_deref(), Some("main"));
    assert_eq!(loot_item.item.carried["location"], 3);
    assert_eq!(loot_item.item.carried["upd"]["StackObjectsCount"], 2);
    assert_eq!(loot_item.item.carried["modAddedField"], "kept");
    assert_eq!(loot_item.item.carried, source.carried);
}

// Further cases.

#[test]
fn get_container_mapping_gives_no_cells_for_negative_counts() {
    let mut view = fixture();
    view.insert(
        "negative".to_owned(),
        ItemView { grid_cells_h: Some(-2), grid_cells_v: Some(2), ..blank_view() },
    );
    view.insert(
        "no_rows".to_owned(),
        ItemView { grid_cells_h: Some(4), grid_cells_v: Some(-1), ..blank_view() },
    );

    assert_eq!(get_container_mapping(&view, "negative").unwrap(), vec![Vec::<u8>::new(), Vec::new()]);
    assert!(get_container_mapping(&view, "no_rows").unwrap().is_empty());
    assert_eq!(
        get_container_mapping(&view, HELMET_TPL).unwrap_err(),
        "Height or width is null when trying to calculate container mapping"
    );
}

#[test]
fn is_of_baseclass_treats_an_empty_parent_as_the_end_of_the_chain() {
    let mut view = fixture();
    view.insert("blank_parent".to_owned(), child_of(""));

    assert!(!is_of_baseclass(&view, "blank_parent", ""));
    assert!(!is_of_baseclass(&view, "blank_parent", ITEM_NODE));
}

#[test]
fn get_item_with_children_uses_the_last_item_with_the_root_id() {
    let items = vec![
        item("x", HELMET_TPL, None),
        item("c1", MOD_PLAIN_A_TPL, Some("x")),
        item("x", ARMOR_VEST_TPL, None),
    ];

    let result = get_item_with_children(&items, "x");

    assert_eq!(result[0].template, ARMOR_VEST_TPL);
    assert_eq!(ids(&result), vec!["x", "c1"]);
}

#[test]
fn get_item_size_of_a_lone_item_is_its_template_size() {
    let view = fixture();
    let items = vec![item("v", ARMOR_VEST_TPL, None)];

    assert_eq!(get_item_size(&view, &items, "v"), Some((3, 4)));
}

#[test]
fn replace_ids_hands_out_valid_distinct_ids_and_leaves_payload_alone() {
    let mut items = two_level_tree();
    let mut ids_source = MongoIdGenerator { machine: 1, counter: 10, process_id: 2 };

    replace_ids(&mut items, &mut ids_source);

    assert_eq!(ids_source.counter, 15);
    let fresh: Vec<&str> = ids(&items);
    for (index, id) in fresh.iter().enumerate() {
        assert!(is_valid(id));
        assert!(!fresh[index + 1..].contains(id));
    }
    let templates: Vec<&str> = items.iter().map(|item| item.template.as_str()).collect();
    assert_eq!(
        templates,
        vec![HELMET_TPL, MOD_PLAIN_A_TPL, MOD_PLAIN_B_TPL, MOD_FORCED_A_TPL, MOD_FORCED_B_TPL]
    );
    assert!(items[0].parent_id.is_none());
}

#[test]
fn reparent_item_and_children_of_an_empty_list_is_empty() {
    let mut items: Vec<Item> = Vec::new();
    let mut ids_source = MongoIdGenerator { machine: 1, counter: 10, process_id: 2 };

    let result = reparent_item_and_children(&item("n", HELMET_TPL, None), &mut items, &mut ids_source);

    assert!(result.is_empty());
    assert_eq!(ids_source.counter, 10);
}
