//! Static container generation: checking a map's static data, the run over
//! its containers (which one is filled next, and the counts reported), the
//! plan of each container group's draw, claiming a container's item for its
//! loot, building the loot items, measuring an item tree's footprint, and
//! placing the items one at a time. The caller makes the floating-point
//! draws (which templates, which containers, whether a magazine gets
//! cartridges) and hands in their outcomes.

use vstd::prelude::*;

use crate::loot::container_extensions::{
    binary, find_slot_for_item, in_bounds, lemma_found_slot_can_be_filled, rectangular, same_shape, scan_sizes_ok,
    try_fill_container_map_with_item, cell, FindSlotResult,
};
use crate::loot::item_helper::{
    children, extra_size, finite_below, first_with_id, fits_i32, force_added, forced_extra, get_item, item_size,
    get_item_size, get_item_with_children, last_with_id, links, or_zero, plain_extra, reided, remap_root_item_id, remapped, replace_ids, same_payload,
    size_sums_fit, size_tree, has_base, AMMO_BOX, MAGAZINE, WEAPON,
};
use crate::loot::location_loot_generator::{
    chain_ends, create_weapon_root_and_children, flagged, lemma_flag_keeps_grid, magazine_moved, placement_step,
    containers_to_draw, is_armour_class, is_stack_class, lemma_static_kind_by_base_class, in_magazine_slot, list_holds, placement_trace, random_stack_count, same_cells, size_height, size_width, slot_search, static_kind, static_loot_kind, under_item,
    usable_size, count_or_zero, LootError, LootKind,
};
use crate::loot::models::{
    clone_opt_string, note_view, notes_added, notes_view, opt_view, plain, plain_note, Item, ItemLocation, ItemView, Note, NoteLevel, SptLootItem,
};
use crate::loot::mongo_id::{advance, advanced, handed_out, id_text, lemma_advance_adds, next_counter, nth_id, MongoIdGenerator};
use crate::string_map::StringMap;
use crate::strings::{concat, push_char, str_eq};

verus! {

/// `serde_json::Map::new`, wrapped in `serde_json::Value::Object`: an empty
/// JSON object. Nothing is claimed of the value.
#[verifier::external_body]
fn empty_json_object() -> (v: serde_json::Value) {
    serde_json::Value::Object(serde_json::Map::new())
}

/// The parent id a new item takes: the given one, unless it is empty.
pub open spec fn new_parent(parent_id: Option<&str>) -> Option<Seq<char>> {
    match parent_id {
        Some(p) => if p@.len() > 0 { Some(p@) } else { None },
        None => None,
    }
}

/// `it` is a new item of template `tpl` in `parent_id`, carrying the first id
/// a generator in state `g` hands out.
pub open spec fn fresh_root(it: Item, tpl: Seq<char>, parent_id: Option<&str>, g: MongoIdGenerator) -> bool {
    &&& it.template@ == tpl
    &&& opt_view(it.parent_id) == new_parent(parent_id)
    &&& it.slot_id is None
    &&& it.desc is None
    &&& nth_id(g, it.id@, 0)
}

/// A new item of template `tpl`, in `parent_id` unless that is empty, with a
/// fresh id.
pub(crate) fn fresh_item(tpl: &str, parent_id: Option<&str>, ids: &mut MongoIdGenerator) -> (it: Item)
    ensures
        fresh_root(it, tpl@, parent_id, *old(ids)),
        *final(ids) == advanced(*old(ids), 1),
{
    let ghost g = *ids;
    let id = ids.generate();
    proof {
        assert(advance(g.counter, 0) == g.counter);
        assert(advance(g.counter, 1) == next_counter(advance(g.counter, 0)));
        let ts = choose|ts: u32| id@ == #[trigger] id_text(ts, g.machine, g.process_id, g.counter);
        assert(id@ == id_text(ts, g.machine, g.process_id, advance(g.counter, 0)));
    }
    proof {
        reveal_strlit("");
    }
    let parent = match parent_id {
        Some(p) => if str_eq(p, "") {
            None
        } else {
            proof {
                if p@.len() == 0 {
                    assert(p@ =~= ""@);
                }
            }
            Some(p.to_owned())
        },
        None => None,
    };
    Item { id, template: tpl.to_owned(), parent_id: parent, slot_id: None, desc: None, carried: empty_json_object() }
}

/// The items created for one loot template: the root first, with the
/// footprint its template gives (for a weapon the footprint comes from the
/// whole item tree instead, `sized_by_tree`), and the stack size of the root
/// when it is a stack of money or ammunition.
pub struct ContainerItem {
    pub items: Vec<Item>,
    pub width: Option<i32>,
    pub height: Option<i32>,
    pub stack_count: Option<i32>,
    pub sized_by_tree: bool,
}

/// `count` is a stack size a stack of `v` may get.
pub open spec fn stack_count_for(v: ItemView, count: i32) -> bool {
    if v.stack_max_size == Some(1i32) {
        count == 1
    } else {
        let lo = count_or_zero(v.stack_min_random);
        let hi = count_or_zero(v.stack_max_random);
        &&& hi > lo ==> lo <= count <= hi
        &&& hi <= lo ==> count == lo
    }
}

/// `out` is armour preset `p` with every id fresh: each item re-ided in turn
/// (children follow their parent), then the root given another fresh id, and
/// the root moved into `parent`.
pub open spec fn armour_from_preset(p: Seq<Item>, out: Seq<Item>, parent: Option<Seq<char>>, fresh: Seq<Seq<char>>, root_id: Seq<char>) -> bool {
    &&& out.len() == p.len()
    &&& forall|j: int| 0 <= j < p.len() ==> same_payload(#[trigger] out[j], p[j])
    &&& fresh.len() == p.len()
    &&& p.len() > 0 ==> {
        &&& out[0].id@ == root_id
        &&& opt_view(out[0].parent_id) == parent
        &&& forall|t: int| 1 <= t < p.len() ==> #[trigger] links(out)[t] == remapped(reided(links(p), fresh, fresh.len()), root_id)[t]
    }
}

/// `out` is armour preset `p` copied with fresh ids into `parent` by a
/// generator that started in state `g` and first gave the root its id.
pub open spec fn armour_built(p: Seq<Item>, out: Seq<Item>, parent: Option<Seq<char>>, g: MongoIdGenerator) -> bool {
    exists|fresh: Seq<Seq<char>>, root_id: Seq<char>| {
        &&& armour_from_preset(p, out, parent, fresh, root_id)
        &&& handed_out(advanced(g, 1), fresh)
        &&& nth_id(advanced(g, (1 + p.len()) as nat), root_id, 0)
    }
}

/// A copy of a list of items.
fn copy_items(src: &[Item]) -> (r: Vec<Item>)
    ensures
        r@ == src@,
{
    let mut r: Vec<Item> = Vec::new();
    let mut k: usize = 0;
    while k < src.len()
        invariant
            k <= src@.len(),
            r@ == src@.take(k as int),
        decreases src@.len() - k,
    {
        r.push(src[k].clone());
        assert(r@ =~= src@.take(k + 1));
        k += 1;
    }
    assert(r@ =~= src@);
    r
}

/// Builds the loot item of template `chosen_tpl` for a static container whose
/// item id is `parent_id`. An unknown template gives nothing, with an error
/// note. Otherwise a new root item of that template is created, and then by
/// kind: a stack of money or ammunition gets a random stack size; a weapon is
/// built from its default preset (an empty preset is an error); an armour
/// with a default preset becomes a fresh copy of that preset, moved into the
/// container; anything else stays the root alone. Ammunition boxes, magazines
/// (when `magazine_has_ammo`), weapon magazines and slotted armour without a
/// preset are left without their contents, each with a warning note.
pub fn create_static_loot_item(
    items_view: &StringMap<ItemView>,
    default_presets: &StringMap<Vec<Item>>,
    chosen_tpl: &str,
    parent_id: Option<&str>,
    magazine_has_ammo: bool,
    ids: &mut MongoIdGenerator,
    notes: &mut Vec<Note>,
) -> (r: Result<Option<ContainerItem>, LootError>)
    requires
        chain_ends(items_view@, chosen_tpl@),
    ensures
        exists|n: nat| *final(ids) == advanced(*old(ids), n),
        !items_view@.contains_key(chosen_tpl@) ==> {
            &&& r matches Ok(None)
            &&& *final(ids) == *old(ids)
            &&& notes_added(old(notes)@, final(notes)@, 1)
            &&& plain_note(final(notes)@.last(), NoteLevel::Error, "Unable to process item: "@ + chosen_tpl@ + ". it lacks _props"@)
        },
        ({
            let m = items_view@;
            let t = chosen_tpl@;
            m.contains_key(t) && !is_stack_class(m, t) && !has_base(m, t, seq![WEAPON]) && !has_base(m, t, seq![AMMO_BOX])
                && !has_base(m, t, seq![MAGAZINE]) && is_armour_class(m, t)
        }) ==> (r matches Ok(Some(ci)) && if default_presets@.contains_key(chosen_tpl@) {
            armour_built(default_presets@[chosen_tpl@]@, ci.items@, new_parent(parent_id), *old(ids))
        } else {
            ci.items@.len() == 1 && fresh_root(ci.items@[0], chosen_tpl@, parent_id, *old(ids))
        }),
        ({
            let m = items_view@;
            m.contains_key(chosen_tpl@) && is_stack_class(m, chosen_tpl@)
        }) ==> (r matches Ok(Some(ci)) && {
            &&& ci.items@.len() == 1
            &&& fresh_root(ci.items@[0], chosen_tpl@, parent_id, *old(ids))
            &&& ci.stack_count matches Some(c) && stack_count_for(items_view@[chosen_tpl@], c)
        }),
        items_view@.contains_key(chosen_tpl@) ==> {
            let v = items_view@[chosen_tpl@];
            let kind = static_kind(items_view@, chosen_tpl@);
            let preset = if default_presets@.contains_key(chosen_tpl@) { Some(default_presets@[chosen_tpl@]@) } else { None };
            &&& r is Err <==> (kind == LootKind::Weapon && preset is Some && preset->0.len() == 0)
            &&& (r matches Err(e) ==> e.message@ == "preset not found for "@ + chosen_tpl@ + ", parentId: "@
                + match parent_id { Some(p) => p@, None => Seq::<char>::empty() })
            &&& (r is Ok ==> r matches Ok(Some(_)))
            &&& (r matches Ok(Some(ci)) ==> {
                &&& ci.items@.len() > 0 ==> opt_view(ci.items@[0].parent_id) == new_parent(parent_id)
                &&& ci.sized_by_tree == (kind == LootKind::Weapon)
                &&& kind != LootKind::Weapon ==> ci.width == v.width && ci.height == v.height
                &&& kind == LootKind::Weapon ==> ci.width is None && ci.height is None
                &&& (ci.stack_count is Some) == (kind == LootKind::Stack)
                &&& ci.stack_count matches Some(c) ==> stack_count_for(v, c)
                &&& (kind == LootKind::Stack || kind == LootKind::AmmoBox || kind == LootKind::Magazine || kind == LootKind::Plain
                    || (kind == LootKind::Armor && preset is None)) ==> {
                    &&& ci.items@.len() == 1
                    &&& fresh_root(ci.items@[0], chosen_tpl@, parent_id, *old(ids))
                    &&& *final(ids) == advanced(*old(ids), 1)
                }
                &&& kind == LootKind::Weapon ==> exists|grafted: Seq<Item>, mag: Option<usize>| {
                    &&& magazine_moved(grafted, ci.items@, mag)
                    &&& fresh_root(grafted[0], chosen_tpl@, parent_id, *old(ids))
                    &&& preset is None ==> grafted.len() == 1
                    &&& preset matches Some(p) ==> grafted.len() == p.len()
                }
                &&& (kind == LootKind::Armor && preset is Some) ==> armour_built(preset->0, ci.items@, new_parent(parent_id), *old(ids))
            })
        },
{
    let ghost start = *ids;
    proof {
        assert(advance(start.counter, 0) == start.counter);
        lemma_static_kind_by_base_class(items_view@, chosen_tpl@);
    }
    let template = match get_item(items_view, chosen_tpl) {
        Some(t) => t,
        None => {
            let m = concat("Unable to process item: ", chosen_tpl);
            let m = concat(m.as_str(), ". it lacks _props");
            notes.push(plain(NoteLevel::Error, m));
            assert(*ids == advanced(start, 0));
            return Ok(None);
        },
    };
    let width = template.width;
    let height = template.height;
    let root = fresh_item(chosen_tpl, parent_id, ids);
    let mut items: Vec<Item> = Vec::new();
    items.push(root);
    let kind = static_loot_kind(items_view, chosen_tpl);
    match kind {
        LootKind::Stack => {
            let count = random_stack_count(template);
            Ok(Some(ContainerItem { items, width, height, stack_count: Some(count), sized_by_tree: false }))
        },
        LootKind::Weapon => {
            let preset: Option<&[Item]> = match default_presets.get(chosen_tpl) {
                Some(p) => Some(p.as_slice()),
                None => None,
            };
            let ghost before = items@;
            let ghost mid = *ids;
            match create_weapon_root_and_children(preset, chosen_tpl, parent_id, &mut items, ids, notes) {
                Ok((_, magazine)) => {
                    if magazine.is_some() {
                        let m = concat("Magazine of weapon ", chosen_tpl);
                        let m = concat(m.as_str(), " left without cartridges");
                        notes.push(plain(NoteLevel::Warning, m));
                    }
                    proof {
                        let n = choose|n: nat| *ids == advanced(mid, n);
                        lemma_advance_adds(start.counter, 1, n);
                        assert(*ids == advanced(start, 1 + n));
                        let (grafted, n2) = choose|grafted: Seq<Item>, n2: nat| {
                            &&& *ids == advanced(mid, n2)
                            &&& magazine_moved(grafted, items@, magazine)
                            &&& grafted.len() > 0 && grafted[0] == before[0]
                            &&& preset is None ==> grafted == before
                            &&& preset matches Some(p) ==> grafted.len() == p@.len()
                        };
                        if magazine is Some {
                            let j = choose|j: int| {
                                &&& 0 <= j < grafted.len()
                                &&& in_magazine_slot(grafted, j)
                                &&& forall|i: int| 0 <= i < j ==> !#[trigger] in_magazine_slot(grafted, i)
                                &&& items@ == grafted.remove(j).push(grafted[j])
                                &&& magazine->0 == items@.len() - 1
                            };
                            assert(!in_magazine_slot(grafted, 0));
                            assert(j > 0);
                            assert(items@[0] == grafted[0]);
                        }
                    }
                    Ok(Some(ContainerItem { items, width: None, height: None, stack_count: None, sized_by_tree: true }))
                },
                Err(e) => Err(e),
            }
        },
        LootKind::AmmoBox => {
            let m = concat("Ammo box ", chosen_tpl);
            let m = concat(m.as_str(), " left without cartridges");
            notes.push(plain(NoteLevel::Warning, m));
            Ok(Some(ContainerItem { items, width, height, stack_count: None, sized_by_tree: false }))
        },
        LootKind::Magazine => {
            if magazine_has_ammo {
                let m = concat("Magazine ", chosen_tpl);
                let m = concat(m.as_str(), " left without cartridges");
                notes.push(plain(NoteLevel::Warning, m));
            }
            Ok(Some(ContainerItem { items, width, height, stack_count: None, sized_by_tree: false }))
        },
        LootKind::Armor => {
            match default_presets.get(chosen_tpl) {
                Some(p) => {
                    let root_parent = match &items[0].parent_id {
                        Some(s) => Some(s.clone()),
                        None => None,
                    };
                    let mut preset_items = copy_items(p.as_slice());
                    let ghost g1 = *ids;
                    replace_ids(preset_items.as_mut_slice(), ids);
                    let ghost reided_items = preset_items@;
                    let ghost g2 = *ids;
                    let root_id = remap_root_item_id(preset_items.as_mut_slice(), ids);
                    let ghost remapped_items = preset_items@;
                    proof {
                        if p@.len() > 0 {
                            assert(links(remapped_items)[0] == remapped(links(reided_items), root_id@)[0]);
                            assert(remapped_items[0].id@ == links(remapped_items)[0].0);
                        }
                    }
                    if preset_items.len() > 0 {
                        let mut first = preset_items[0].clone();
                        first.parent_id = root_parent;
                        preset_items.set(0, first);
                    }
                    proof {
                        lemma_advance_adds(start.counter, 1, p@.len() as nat);
                        lemma_advance_adds(start.counter, 1 + p@.len(), 1);
                        let fresh = choose|fresh: Seq<Seq<char>>| {
                            &&& fresh.len() == p@.len()
                            &&& handed_out(g1, fresh)
                            &&& links(reided_items) == reided(links(p@), fresh, fresh.len())
                        };
                        assert(g2 == advanced(start, 1 + p@.len()));
                        assert(*ids == advanced(start, 1 + p@.len() + 1));
                        if p@.len() > 0 {
                            assert forall|t: int| 1 <= t < p@.len() implies #[trigger] links(preset_items@)[t]
                                == remapped(reided(links(p@), fresh, fresh.len()), root_id@)[t] by {
                            }
                        }
                        assert(armour_from_preset(p@, preset_items@, new_parent(parent_id), fresh, root_id@));
                        assert(g1 == advanced(start, 1));
                        assert(handed_out(advanced(start, 1), fresh));
                        assert(nth_id(advanced(start, 1 + p@.len()), root_id@, 0));
                        assert(armour_built(p@, preset_items@, new_parent(parent_id), start));
                    }
                    Ok(Some(ContainerItem { items: preset_items, width, height, stack_count: None, sized_by_tree: false }))
                },
                None => {
                    let slotted = match &template.slots {
                        Some(s) => s.len() > 0,
                        None => false,
                    };
                    if slotted {
                        let m = concat("Armour ", chosen_tpl);
                        let m = concat(m.as_str(), " left without its slot items");
                        notes.push(plain(NoteLevel::Warning, m));
                    }
                    Ok(Some(ContainerItem { items, width, height, stack_count: None, sized_by_tree: false }))
                },
            }
        },
        LootKind::Plain => Ok(Some(ContainerItem { items, width, height, stack_count: None, sized_by_tree: false })),
    }
}

/// One item's turn at being placed in `grid`, as `placement_step` says:
/// `failed` counts the items that found no room so far, or is -1 once
/// placing has given up. An item with a usable size goes where the slot
/// search puts it, and its cells are taken. Returns where it went and the
/// new count.
pub fn place_next(grid: &mut Vec<Vec<u8>>, size: Option<(i32, i32)>, failed: i32, fit_attempts: i32) -> (r: (Option<FindSlotResult>, i32))
    requires
        rectangular(old(grid)@),
        binary(old(grid)@),
        -1 <= failed < i32::MAX,
        usable_size(size) ==> scan_sizes_ok(old(grid)@, size_width(size), size_height(size)),
    ensures
        placement_step(old(grid)@, final(grid)@, size, fit_attempts as int, failed as int, r.1 as int, r.0),
        rectangular(final(grid)@),
        binary(final(grid)@),
        same_shape(final(grid)@, old(grid)@),
{
    let ghost before = grid@;
    if failed < 0 {
        proof {
            assert(same_cells(before, grid@));
        }
        return (None, failed);
    }
    let usable = match size {
        Some((w, h)) => w > 0 && h > 0,
        None => false,
    };
    let result = if usable {
        let (w, h) = size.unwrap();
        find_slot_for_item(grid, w, h)
    } else {
        FindSlotResult::default()
    };
    if !result.success {
        let next = if failed > fit_attempts { -1 } else { failed + 1 };
        proof {
            assert(same_cells(before, grid@));
        }
        (None, next)
    } else {
        let (w, h) = size.unwrap();
        proof {
            assert(slot_search(before, w as int, h as int, result));
            lemma_found_slot_can_be_filled(before, w as int, h as int, result.y as int, result.x as int);
        }
        try_fill_container_map_with_item(grid, result.x, result.y, w, h, result.rotation);
        proof {
            assert forall|r: int, c: int| in_bounds(before, r, c) implies #[trigger] cell(grid@, r, c)
                == if under_item(result, w as int, h as int, r, c) { 1u8 } else { cell(before, r, c) } by {
            }
            assert(flagged(before, grid@, result, w as int, h as int));
            lemma_flag_keeps_grid(before, grid@, result, w as int, h as int);
        }
        (Some(result), failed)
    }
}

/// The stage a static generation run is in.
#[derive(Debug, Clone, Copy, PartialEq, Eq, Structural)]
pub enum StaticStage {
    /// Filling every guaranteed container.
    Guaranteed,
    /// Randomisation is off: filling every randomisable container too.
    AllRandomisable,
    /// Filling the containers the group draws picked.
    GroupPicks,
    /// Nothing more to do.
    Finished,
}

/// Where a static generation run stands: its stage, the containers (by
/// position) that stage fills, how many of them are filled, what comes after
/// the guaranteed containers, and the two counts it reports: items put into
/// containers, and containers spawned (the guaranteed ones, plus each one a
/// group draw picked).
pub struct StaticRun {
    pub stage: StaticStage,
    pub queue: Vec<usize>,
    pub filled: usize,
    pub randomise: bool,
    pub has_statics: bool,
    pub randomisable: Vec<usize>,
    pub static_loot_item_count: i32,
    pub static_container_count: i32,
}

/// What the caller reports back.
pub enum StaticEvent {
    /// The container asked for was filled with this many items.
    Filled(i32),
    /// The group draws picked these containers (by position), in order.
    GroupsDrawn(Vec<usize>),
}

/// What the caller does next.
#[derive(Debug, Clone, Copy, PartialEq, Eq, Structural)]
pub enum StaticAction {
    /// Fill the container at this position.
    Fill(usize),
    /// Make the group draws over the randomisable containers.
    DrawGroups,
    /// Generation is done; the counts are final.
    Finish,
}

/// The action a run in state `s` asks for, and the stage it is then in.
pub open spec fn next_action(s: StaticRun) -> (StaticStage, StaticAction) {
    if s.filled < s.queue@.len() {
        (s.stage, StaticAction::Fill(s.queue@[s.filled as int]))
    } else {
        match s.stage {
            StaticStage::Guaranteed => if !s.randomise {
                if s.randomisable@.len() > 0 {
                    (StaticStage::AllRandomisable, StaticAction::Fill(s.randomisable@[0]))
                } else {
                    (StaticStage::Finished, StaticAction::Finish)
                }
            } else if !s.has_statics {
                (StaticStage::Finished, StaticAction::Finish)
            } else {
                (StaticStage::Guaranteed, StaticAction::DrawGroups)
            },
            _ => (StaticStage::Finished, StaticAction::Finish),
        }
    }
}

/// A copy of a list of positions.
fn copy_positions(v: &Vec<usize>) -> (r: Vec<usize>)
    ensures
        r@ == v@,
{
    let mut r: Vec<usize> = Vec::new();
    let mut k: usize = 0;
    while k < v.len()
        invariant
            k <= v@.len(),
            r@ == v@.take(k as int),
        decreases v@.len() - k,
    {
        r.push(v[k]);
        assert(r@ =~= v@.take(k + 1));
        k += 1;
    }
    assert(r@ =~= v@);
    r
}

/// Moves a run on to what it asks for next (see `next_action`): once its
/// guaranteed containers are filled it fills every randomisable container
/// when randomisation is off, finishes when there are no statics to group
/// by, and asks for the group draws otherwise.
fn settle(s: StaticRun) -> (r: (StaticRun, StaticAction))
    requires
        s.filled <= s.queue@.len(),
        s.stage == StaticStage::Guaranteed || s.stage == StaticStage::AllRandomisable || s.stage == StaticStage::GroupPicks,
    ensures
        (r.0.stage, r.1) == next_action(s),
        r.0.static_loot_item_count == s.static_loot_item_count,
        r.0.static_container_count == s.static_container_count,
        r.0.randomise == s.randomise,
        r.0.has_statics == s.has_statics,
        r.0.randomisable@ == s.randomisable@,
        r.0.stage == s.stage || r.0.queue@.len() == 0 || r.0.stage == StaticStage::AllRandomisable,
        r.0.stage == s.stage ==> r.0.queue@ == s.queue@ && r.0.filled == s.filled,
        r.0.stage == StaticStage::AllRandomisable && s.stage != StaticStage::AllRandomisable ==> r.0.queue@ == s.randomisable@ && r.0.filled == 0,
        r.0.stage == StaticStage::Finished ==> r.0.queue@.len() == 0 && r.0.filled == 0,
        r.1 matches StaticAction::Fill(_) ==> r.0.filled < r.0.queue@.len(),
{
    if s.filled < s.queue.len() {
        let k = s.queue[s.filled];
        return (s, StaticAction::Fill(k));
    }
    match s.stage {
        StaticStage::Guaranteed => {
            if !s.randomise {
                if s.randomisable.len() > 0 {
                    let first = s.randomisable[0];
                    let queue = copy_positions(&s.randomisable);
                    let run = StaticRun { stage: StaticStage::AllRandomisable, queue, filled: 0, ..s };
                    (run, StaticAction::Fill(first))
                } else {
                    (StaticRun { stage: StaticStage::Finished, queue: Vec::new(), filled: 0, ..s }, StaticAction::Finish)
                }
            } else if !s.has_statics {
                (StaticRun { stage: StaticStage::Finished, queue: Vec::new(), filled: 0, ..s }, StaticAction::Finish)
            } else {
                (s, StaticAction::DrawGroups)
            }
        },
        _ => (StaticRun { stage: StaticStage::Finished, queue: Vec::new(), filled: 0, ..s }, StaticAction::Finish),
    }
}

/// Starts a static generation run over a map's season-filtered containers,
/// split into the guaranteed and the randomisable ones (by position): every
/// guaranteed container is filled first, and each counts as spawned.
/// `randomise` says whether container randomisation is on for the map, and
/// `has_statics` whether the map's container groups are known.
pub fn start_static_run(guaranteed: Vec<usize>, randomisable: Vec<usize>, randomise: bool, has_statics: bool) -> (r: (StaticRun, StaticAction))
    requires
        guaranteed@.len() <= i32::MAX,
    ensures
        ({
            let s = StaticRun {
                stage: StaticStage::Guaranteed,
                queue: guaranteed,
                filled: 0,
                randomise,
                has_statics,
                randomisable,
                static_loot_item_count: 0,
                static_container_count: guaranteed@.len() as i32,
            };
            (r.0.stage, r.1) == next_action(s)
        }),
        r.0.static_loot_item_count == 0,
        r.0.static_container_count == guaranteed@.len(),
        r.0.randomise == randomise,
        r.0.has_statics == has_statics,
        r.0.randomisable@ == randomisable@,
        r.0.stage == StaticStage::Guaranteed ==> r.0.queue@ == guaranteed@ && r.0.filled == 0,
        r.0.stage == StaticStage::AllRandomisable ==> r.0.queue@ == randomisable@ && r.0.filled == 0,
        r.1 matches StaticAction::Fill(_) ==> r.0.filled < r.0.queue@.len(),
{
    let count = guaranteed.len() as i32;
    let ghost g = guaranteed@;
    let s = StaticRun {
        stage: StaticStage::Guaranteed,
        queue: guaranteed,
        filled: 0,
        randomise,
        has_statics,
        randomisable,
        static_loot_item_count: 0,
        static_container_count: count,
    };
    settle(s)
}

/// One step of a static generation run. A filled container adds its items to
/// the item count, and counts as spawned when a group draw picked it; then
/// the run asks for the next container of its stage, or moves on (see
/// `next_action`). The group draws' picks become the containers the run fills
/// next. An event the run did not ask for (a fill report with nothing being
/// filled, picks when no draw was asked for) leaves the run finished.
pub fn static_generation_step(state: StaticRun, event: StaticEvent) -> (r: (StaticRun, StaticAction))
    requires
        state.filled <= state.queue@.len(),
        event matches StaticEvent::Filled(n) ==> 0 <= n && state.static_loot_item_count + n <= i32::MAX,
        state.static_container_count < i32::MAX,
    ensures
        r.0.randomise == state.randomise,
        r.0.has_statics == state.has_statics,
        r.0.randomisable@ == state.randomisable@,
        match event {
            StaticEvent::Filled(n) => if state.stage != StaticStage::Finished && state.filled < state.queue@.len() {
                let counted = state.stage == StaticStage::GroupPicks;
                let s = StaticRun {
                    filled: (state.filled + 1) as usize,
                    static_loot_item_count: (state.static_loot_item_count + n) as i32,
                    static_container_count: if counted { (state.static_container_count + 1) as i32 } else { state.static_container_count },
                    ..state
                };
                &&& (r.0.stage, r.1) == next_action(s)
                &&& r.0.static_loot_item_count == state.static_loot_item_count + n
                &&& r.0.static_container_count == state.static_container_count + if counted { 1int } else { 0int }
            } else {
                &&& r.0.stage == StaticStage::Finished && r.1 == StaticAction::Finish
                &&& r.0.static_loot_item_count == state.static_loot_item_count
                &&& r.0.static_container_count == state.static_container_count
            },
            StaticEvent::GroupsDrawn(picks) => if state.stage == StaticStage::Guaranteed && state.filled == state.queue@.len()
                && state.randomise && state.has_statics {
                &&& r.0.stage == StaticStage::GroupPicks || r.0.stage == StaticStage::Finished
                &&& r.0.stage == StaticStage::GroupPicks ==> r.0.queue@ == picks@ && r.0.filled == 0 && picks@.len() > 0
                    && r.1 == StaticAction::Fill(picks@[0])
                &&& r.0.stage == StaticStage::Finished ==> picks@.len() == 0 && r.1 == StaticAction::Finish
                &&& r.0.static_loot_item_count == state.static_loot_item_count
                &&& r.0.static_container_count == state.static_container_count
            } else {
                &&& r.0.stage == StaticStage::Finished && r.1 == StaticAction::Finish
                &&& r.0.static_loot_item_count == state.static_loot_item_count
                &&& r.0.static_container_count == state.static_container_count
            },
        },
        r.1 matches StaticAction::Fill(_) ==> r.0.filled < r.0.queue@.len(),
{
    match event {
        StaticEvent::Filled(n) => {
            if state.stage != StaticStage::Finished && state.filled < state.queue.len() {
                let counted = state.stage == StaticStage::GroupPicks;
                let containers = if counted { state.static_container_count + 1 } else { state.static_container_count };
                let items = state.static_loot_item_count + n;
                let s = StaticRun {
                    filled: state.filled + 1,
                    static_loot_item_count: items,
                    static_container_count: containers,
                    ..state
                };
                settle(s)
            } else {
                (StaticRun { stage: StaticStage::Finished, queue: Vec::new(), filled: 0, ..state }, StaticAction::Finish)
            }
        },
        StaticEvent::GroupsDrawn(picks) => {
            if state.stage == StaticStage::Guaranteed && state.filled == state.queue.len() && state.randomise && state.has_statics {
                if picks.len() > 0 {
                    let first = picks[0];
                    (StaticRun { stage: StaticStage::GroupPicks, queue: picks, filled: 0, ..state }, StaticAction::Fill(first))
                } else {
                    (StaticRun { stage: StaticStage::Finished, queue: Vec::new(), filled: 0, ..state }, StaticAction::Finish)
                }
            } else {
                (StaticRun { stage: StaticStage::Finished, queue: Vec::new(), filled: 0, ..state }, StaticAction::Finish)
            }
        },
    }
}

/// The items that sit directly in the item with id `id`, in list order.
fn children_of(items: &[Item], id: &str) -> (r: Vec<Item>)
    ensures
        r@ == children(items@, id@),
{
    let mut r: Vec<Item> = Vec::new();
    let mut k: usize = 0;
    while k < items.len()
        invariant
            k <= items@.len(),
            r@ == children(items@.take(k as int), id@),
        decreases items@.len() - k,
    {
        let here = match &items[k].parent_id {
            Some(p) => str_eq(p.as_str(), id),
            None => false,
        };
        proof {
            assert(items@.take(k + 1).drop_last() =~= items@.take(k as int));
            assert(items@.take(k + 1).last() == items@[k as int]);
        }
        if here {
            r.push(items[k].clone());
        }
        k += 1;
    }
    assert(items@.take(items@.len() as int) =~= items@);
    r
}

/// Whether the items below `it` end within `fuel` levels.
fn tree_ends(items: &[Item], it: &Item, fuel: usize) -> (r: bool)
    ensures
        r == finite_below(items@, *it, fuel as nat),
    decreases fuel,
{
    let ch = children_of(items, it.id.as_str());
    if fuel == 0 {
        return ch.len() == 0;
    }
    let mut i: usize = 0;
    while i < ch.len()
        invariant
            i <= ch@.len(),
            fuel > 0,
            ch@ == children(items@, it.id@),
            forall|j: int| 0 <= j < i ==> finite_below(items@, #[trigger] ch@[j], (fuel - 1) as nat),
        decreases ch@.len() - i,
    {
        if !tree_ends(items, &ch[i], fuel - 1) {
            return false;
        }
        i += 1;
    }
    true
}

/// Whether a number fits in an `i32`.
fn fits_in_i32(x: i64) -> (b: bool)
    ensures
        b == fits_i32(x as int),
{
    i32::MIN as i64 <= x && x <= i32::MAX as i64
}

/// Whether every running sum the size of `tree` takes, from a footprint of
/// `width` x `height`, fits in an `i32`.
fn size_sums_ok(items_view: &StringMap<ItemView>, tree: &[Item], width: i32, height: i32) -> (r: bool)
    ensures
        r == size_sums_fit(items_view@, tree@, width as int, height as int),
{
    let ghost m = items_view@;
    let mut forced: Vec<i64> = vec![0, 0, 0, 0];
    let mut plain_max: Vec<i64> = vec![0, 0, 0, 0];
    let mut k: usize = 0;
    proof {
        assert forall|d: int| 0 <= d < 4 implies forced@[d] == forced_extra(m, tree@.take(0), d) by {
            assert(tree@.take(0).len() == 0);
        }
        assert forall|d: int| 0 <= d < 4 implies plain_max@[d] == plain_extra(m, tree@.take(0), d) by {
            assert(tree@.take(0).len() == 0);
        }
    }
    while k < tree.len()
        invariant
            k <= tree@.len(),
            m == items_view@,
            forced@.len() == 4,
            plain_max@.len() == 4,
            forall|d: int| 0 <= d < 4 ==> forced@[d] == forced_extra(m, tree@.take(k as int), d),
            forall|d: int| 0 <= d < 4 ==> plain_max@[d] == plain_extra(m, tree@.take(k as int), d),
            forall|d: int| 0 <= d < 4 ==> i32::MIN <= #[trigger] plain_max@[d] <= i32::MAX,
            forall|j: int, d: int| 0 <= j <= k && 0 <= d < 4 ==> fits_i32(#[trigger] forced_extra(m, tree@.take(j), d)),
        decreases tree@.len() - k,
    {
        proof {
            assert(tree@.take(k + 1).drop_last() =~= tree@.take(k as int));
            assert(tree@.take(k + 1).last() == tree@[k as int]);
        }
        match get_item(items_view, tree[k].template.as_str()) {
            Some(v) => {
                let add = v.extra_size_force_add == Some(true);
                let mut d: usize = 0;
                while d < 4
                    invariant
                        0 <= d <= 4,
                        k < tree@.len(),
                        m == items_view@,
                        forced@.len() == 4,
                        plain_max@.len() == 4,
                        m.contains_key(tree@[k as int].template@),
                        *v == m[tree@[k as int].template@],
                        add == force_added(*v),
                        tree@.take(k + 1).drop_last() =~= tree@.take(k as int),
                        tree@.take(k + 1).last() == tree@[k as int],
                        forall|e: int| 0 <= e < d ==> forced@[e] == forced_extra(m, tree@.take(k + 1), e),
                        forall|e: int| d <= e < 4 ==> forced@[e] == forced_extra(m, tree@.take(k as int), e),
                        forall|e: int| 0 <= e < d ==> plain_max@[e] == plain_extra(m, tree@.take(k + 1), e),
                        forall|e: int| d <= e < 4 ==> plain_max@[e] == plain_extra(m, tree@.take(k as int), e),
                        forall|e: int| 0 <= e < 4 ==> i32::MIN <= #[trigger] plain_max@[e] <= i32::MAX,
                        forall|j: int, e: int| 0 <= j <= k && 0 <= e < 4 ==> fits_i32(#[trigger] forced_extra(m, tree@.take(j), e)),
                        forall|e: int| 0 <= e < d ==> fits_i32(#[trigger] forced_extra(m, tree@.take(k + 1), e)),
                    decreases 4 - d,
                {
                    let raw = if d == 0 {
                        v.extra_size_up
                    } else if d == 1 {
                        v.extra_size_down
                    } else if d == 2 {
                        v.extra_size_left
                    } else {
                        v.extra_size_right
                    };
                    let extra: i64 = match raw {
                        Some(x) => x as i64,
                        None => 0,
                    };
                    proof {
                        assert(extra == extra_size(*v, d as int));
                        assert(fits_i32(forced_extra(m, tree@.take(k as int), d as int)));
                    }
                    if add {
                        let sum = forced[d] + extra;
                        if !fits_in_i32(sum) {
                            proof {
                                assert(forced_extra(m, tree@.take(k + 1), d as int) == sum);
                                assert(!fits_i32(forced_extra(m, tree@.take(k + 1), d as int)));
                            }
                            return false;
                        }
                        forced.set(d, sum);
                    } else if extra > plain_max[d] {
                        plain_max.set(d, extra);
                    }
                    d += 1;
                }
            },
            None => {
                proof {
                    assert forall|d: int| 0 <= d < 4 implies forced_extra(m, tree@.take(k + 1), d)
                        == forced_extra(m, tree@.take(k as int), d) && plain_extra(m, tree@.take(k + 1), d)
                        == plain_extra(m, tree@.take(k as int), d) by {
                    }
                }
            },
        }
        proof {
            assert forall|j: int, d: int| 0 <= j <= k + 1 && 0 <= d < 4 implies fits_i32(#[trigger] forced_extra(m, tree@.take(j), d)) by {
                if j == k + 1 {
                    assert(forced@[d] == forced_extra(m, tree@.take(k + 1), d));
                }
            }
        }
        k += 1;
    }
    assert(tree@.take(tree@.len() as int) =~= tree@);
    let w0 = width as i64 + plain_max[2];
    let w1 = w0 + plain_max[3];
    let w2 = w1 + forced[2];
    let w3 = w2 + forced[3];
    let h0 = height as i64 + plain_max[0];
    let h1 = h0 + plain_max[1];
    let h2 = h1 + forced[0];
    let h3 = h2 + forced[1];
    fits_in_i32(w0) && fits_in_i32(w1) && fits_in_i32(w2) && fits_in_i32(w3) && fits_in_i32(h0) && fits_in_i32(h1)
        && fits_in_i32(h2) && fits_in_i32(h3)
}

/// What `get_item_size` needs of an item list to measure the item with id
/// `id`: the tree below the last item with that id ends within as many
/// levels as the list has items, and every sum its size takes fits in an
/// `i32`.
pub open spec fn measurable(m: Map<Seq<char>, ItemView>, items: Seq<Item>, id: Seq<char>) -> bool {
    &&& last_with_id(items, id) matches Some(i) ==> finite_below(items, items[i], items.len())
    &&& first_with_id(items, id) matches Some(i) ==> {
        let t = items[i].template@;
        m.contains_key(t) ==> size_sums_fit(m, size_tree(items, id), or_zero(m[t].width), or_zero(m[t].height))
    }
}

/// The footprint of the item with id `root_item_id` together with
/// everything inside it, as `get_item_size` measures it, when the list is
/// measurable; `None` when it is not (a tree that never ends, or a size past
/// an `i32`), or when there is no such item or template.
pub fn measure_loot(items_view: &StringMap<ItemView>, items: &[Item], root_item_id: &str) -> (r: Option<(i32, i32)>)
    ensures
        measurable(items_view@, items@, root_item_id@) ==> match item_size(items_view@, items@, root_item_id@) {
            Some((w, h)) => r == Some((w as i32, h as i32)),
            None => r is None,
        },
        !measurable(items_view@, items@, root_item_id@) ==> r is None,
{
    let ghost id = root_item_id@;
    let mut first: Option<usize> = None;
    let mut last: Option<usize> = None;
    let mut k: usize = 0;
    while k < items.len()
        invariant
            k <= items@.len(),
            first_with_id(items@.take(k as int), id) == match first {
                Some(x) => Some(x as int),
                None => None::<int>,
            },
            last_with_id(items@.take(k as int), id) == match last {
                Some(x) => Some(x as int),
                None => None::<int>,
            },
            first is Some ==> last is Some,
            id == root_item_id@,
            first matches Some(x) ==> x < k && items@[x as int].id@ == id,
            last matches Some(x) ==> x < k && items@[x as int].id@ == id,
        decreases items@.len() - k,
    {
        proof {
            assert(items@.take(k + 1).drop_last() =~= items@.take(k as int));
            assert(items@.take(k + 1).last() == items@[k as int]);
        }
        let here = str_eq(items[k].id.as_str(), root_item_id);
        proof {
            let s1 = items@.take(k + 1);
            assert(first_with_id(s1, id) == match first_with_id(s1.drop_last(), id) {
                Some(j) => Some(j),
                None => if s1.last().id@ == id { Some(s1.len() - 1) } else { None },
            });
            assert(last_with_id(s1, id) == if s1.last().id@ == id { Some(s1.len() - 1) } else { last_with_id(s1.drop_last(), id) });
        }
        if here {
            if first.is_none() {
                first = Some(k);
            }
            last = Some(k);
        }
        k += 1;
    }
    assert(items@.take(items@.len() as int) =~= items@);
    match last {
        Some(i) => {
            if !tree_ends(items, &items[i], items.len()) {
                return None;
            }
        },
        None => {},
    }
    match first {
        Some(f) => match get_item(items_view, items[f].template.as_str()) {
            Some(v) => {
                let tree = get_item_with_children(items, root_item_id);
                let w = match v.width {
                    Some(x) => x,
                    None => 0,
                };
                let h = match v.height {
                    Some(x) => x,
                    None => 0,
                };
                if !size_sums_ok(items_view, tree.as_slice(), w, h) {
                    return None;
                }
            },
            None => {},
        },
        None => {},
    }
    get_item_size(items_view, items, root_item_id)
}

/// A loot item placed in a static container: its items (the root first, in
/// the container's main slot), the root's stack size if it is a stack, and
/// where the root lies in the container's grid.
pub struct PlacedLoot {
    pub items: Vec<Item>,
    pub stack_count: Option<i32>,
    pub location: ItemLocation,
}

/// The slots of the items that were placed, in order.
pub open spec fn placed_slots(slots: Seq<Option<FindSlotResult>>) -> Seq<FindSlotResult>
    decreases slots.len(),
{
    if slots.len() == 0 {
        Seq::empty()
    } else {
        let rest = placed_slots(slots.drop_last());
        match slots.last() {
            Some(s) => rest.push(s),
            None => rest,
        }
    }
}

/// The footprint a static loot item built from template `tpl` takes in its
/// container's grid, from the items `built` for it: for a weapon, that of
/// its whole item tree (as `measure_loot` measures it); otherwise its
/// template's width and height; none unless both are known and positive.
pub open spec fn built_footprint(m: Map<Seq<char>, ItemView>, tpl: Seq<char>, built: Seq<Item>) -> Option<(i32, i32)> {
    let raw = if static_kind(m, tpl) == LootKind::Weapon {
        if built.len() > 0 && measurable(m, built, built[0].id@) {
            match item_size(m, built, built[0].id@) {
                Some((w, h)) => Some((w as i32, h as i32)),
                None => None,
            }
        } else {
            None
        }
    } else if m.contains_key(tpl) {
        match (m[tpl].width, m[tpl].height) {
            (Some(w), Some(h)) => Some((w, h)),
            _ => None,
        }
    } else {
        None
    };
    match raw {
        Some((w, h)) => if w > 0 && h > 0 { raw } else { None },
        None => None,
    }
}

/// Each placing turn `k` is for the item built from template
/// `tpls[turns[k].0]` (the templates taken in order), whose items
/// `turns[k].1` sit in the container, and uses that item's footprint.
pub open spec fn turns_built(
    m: Map<Seq<char>, ItemView>,
    tpls: Seq<String>,
    parent_id: Seq<char>,
    sizes: Seq<Option<(i32, i32)>>,
    turns: Seq<(int, Seq<Item>)>,
) -> bool {
    &&& turns.len() == sizes.len()
    &&& forall|k: int| 0 <= k < turns.len() ==> {
        &&& 0 <= (#[trigger] turns[k]).0 < tpls.len()
        &&& turns[k].1.len() > 0
        &&& sizes[k] == built_footprint(m, tpls[turns[k].0]@, turns[k].1)
        &&& opt_view(turns[k].1[0].parent_id) == (if parent_id.len() > 0 { Some(parent_id) } else { None })
    }
    &&& forall|k: int, l: int| 0 <= k < l < turns.len() ==> (#[trigger] turns[k]).0 < (#[trigger] turns[l]).0
}

/// `a` is the root `b` with only its slot changed.
pub open spec fn same_but_slot(a: Item, b: Item) -> bool {
    &&& a.id == b.id
    &&& a.template == b.template
    &&& a.parent_id == b.parent_id
    &&& a.desc == b.desc
    &&& a.carried == b.carried
}

/// Each placed item `j` is the item of turn `placed_turn[j]` (in turn
/// order), placed where that turn's slot says: its root with only the slot
/// changed, and the rest of its items as built, possibly cut short.
pub open spec fn placed_from_turns(
    placed: Seq<PlacedLoot>,
    slots: Seq<Option<FindSlotResult>>,
    turns: Seq<(int, Seq<Item>)>,
    placed_turn: Seq<int>,
) -> bool {
    &&& placed_turn.len() == placed.len()
    &&& forall|j: int| 0 <= j < placed.len() ==> {
        let k = #[trigger] placed_turn[j];
        &&& 0 <= k < turns.len() && k < slots.len()
        &&& slots[k] matches Some(s) && placed[j].location == ItemLocation::from_slot_spec(s)
        &&& 0 < placed[j].items@.len() <= turns[k].1.len()
        &&& same_but_slot(placed[j].items@[0], turns[k].1[0])
        &&& forall|t: int| 1 <= t < placed[j].items@.len() ==> #[trigger] placed[j].items@[t] == turns[k].1[t]
    }
    &&& forall|j: int, l: int| 0 <= j < l < placed.len() ==> (#[trigger] placed_turn[j]) < (#[trigger] placed_turn[l])
}

/// The first `built` of `total` templates were built, at least one per
/// placing turn, and building stopped early only because placing gave up.
pub open spec fn built_through(turns: int, built: int, total: int, last_failed: int) -> bool {
    &&& turns <= built <= total
    &&& built < total ==> last_failed == -1
}

/// Whether an item of `w` x `h` can be searched for in `grid` without the
/// search's arithmetic leaving an `i32`.
fn searchable(grid: &Vec<Vec<u8>>, w: i32, h: i32) -> (b: bool)
    requires
        w >= 1 && h >= 1,
    ensures
        b == scan_sizes_ok(grid@, w as int, h as int),
{
    let larger: u64 = if w <= h { h as u64 } else { w as u64 };
    let rows = grid.len() as u64;
    let cols: u64 = if grid.len() == 0 { 0 } else { grid[0].len() as u64 };
    rows <= i32::MAX as u64 && cols <= i32::MAX as u64 && rows + larger <= i32::MAX as u64 && cols + larger <= i32::MAX as u64
}

/// Fills a static container with its loot, whose item id is `parent_id` and
/// whose grid is `grid` (with no templates to add, a warning names the
/// container's template `container_tpl`). The templates `tpls` (the forced ones first, then the
/// kept draws) are taken in order, each built (`create_static_loot_item`,
/// with `magazine_has_ammo` for that template) and then placed before the
/// next is built: an unknown template, or an item left with no items, is
/// skipped; a template in `strip_children` keeps its root alone; the item's
/// footprint (that of its template, or of its whole tree for a weapon) goes
/// through `place_next`, so a miss is counted and, after more than
/// `fit_attempts` misses, the next miss gives up and no later template is
/// built. A placed item's root, which sits in the container, goes into its
/// main slot, at the slot found. An item too large for the grid's search, or a failed build, is
/// an error.
pub fn fill_static_container(
    grid: &mut Vec<Vec<u8>>,
    tpls: &[String],
    container_tpl: &str,
    parent_id: &str,
    items_view: &StringMap<ItemView>,
    default_presets: &StringMap<Vec<Item>>,
    strip_children: &[String],
    magazine_has_ammo: &[bool],
    fit_attempts: i32,
    ids: &mut MongoIdGenerator,
    notes: &mut Vec<Note>,
) -> (r: Result<Vec<PlacedLoot>, LootError>)
    requires
        rectangular(old(grid)@),
        binary(old(grid)@),
        magazine_has_ammo@.len() == tpls@.len(),
        tpls@.len() < i32::MAX,
        forall|i: int| 0 <= i < tpls@.len() ==> chain_ends(items_view@, (#[trigger] tpls@[i])@),
    ensures
        exists|n: nat| *final(ids) == advanced(*old(ids), n),
        tpls@.len() == 0 ==> {
            &&& r matches Ok(placed) && placed@.len() == 0
            &&& notes_added(old(notes)@, final(notes)@, 1)
            &&& plain_note(final(notes)@.last(), NoteLevel::Warning, "Added no items to container: "@ + container_tpl@)
        },
        r matches Ok(placed) ==> exists|grids: Seq<Seq<Vec<u8>>>, failed: Seq<int>, sizes: Seq<Option<(i32, i32)>>, slots: Seq<Option<FindSlotResult>>, built: int|
            #![trigger placement_trace(grids, failed, sizes, fit_attempts as int, slots), built_through(sizes.len() as int, built, tpls@.len() as int, failed[sizes.len() as int])] {
            &&& placement_trace(grids, failed, sizes, fit_attempts as int, slots)
            &&& grids[0] == old(grid)@
            &&& grids[sizes.len() as int] == final(grid)@
            &&& built_through(sizes.len() as int, built, tpls@.len() as int, failed[sizes.len() as int])
            &&& placed@.len() == placed_slots(slots).len()
            &&& forall|j: int| 0 <= j < placed@.len() ==> {
                &&& (#[trigger] placed@[j]).location == ItemLocation::from_slot_spec(placed_slots(slots)[j])
                &&& placed@[j].items@.len() > 0
                &&& opt_view(placed@[j].items@[0].slot_id) == Some("main"@)
                &&& opt_view(placed@[j].items@[0].parent_id) == new_parent(Some(parent_id))
            }
        },
        r matches Ok(placed) ==> exists|sizes: Seq<Option<(i32, i32)>>, slots: Seq<Option<FindSlotResult>>, turns: Seq<(int, Seq<Item>)>, placed_turn: Seq<int>|
            #![trigger turns_built(items_view@, tpls@, parent_id@, sizes, turns), placed_from_turns(placed@, slots, turns, placed_turn)] {
            &&& turns_built(items_view@, tpls@, parent_id@, sizes, turns)
            &&& placed_from_turns(placed@, slots, turns, placed_turn)
            &&& exists|grids: Seq<Seq<Vec<u8>>>, failed: Seq<int>| #[trigger] placement_trace(grids, failed, sizes, fit_attempts as int, slots)
                && grids[0] == old(grid)@ && grids[sizes.len() as int] == final(grid)@
        },
{
    let ghost start = grid@;
    let ghost start_ids = *ids;
    let ghost mut grids: Seq<Seq<Vec<u8>>> = seq![grid@];
    let ghost mut fails: Seq<int> = seq![0int];
    let ghost mut sizes: Seq<Option<(i32, i32)>> = Seq::empty();
    let ghost mut slots: Seq<Option<FindSlotResult>> = Seq::empty();
    let ghost mut turns: Seq<(int, Seq<Item>)> = Seq::empty();
    let ghost mut placed_turn: Seq<int> = Seq::empty();
    proof {
        assert(*ids == advanced(start_ids, 0));
    }
    if tpls.len() == 0 {
        notes.push(plain(NoteLevel::Warning, concat("Added no items to container: ", container_tpl)));
    }
    let ghost notes_at = notes@;
    let mut placed: Vec<PlacedLoot> = Vec::new();
    let mut failure: Option<LootError> = None;
    let mut failed: i32 = 0;
    let mut i: usize = 0;
    while i < tpls.len() && failed >= 0 && failure.is_none()
        invariant
            i <= tpls@.len(),
            tpls@.len() < i32::MAX,
            magazine_has_ammo@.len() == tpls@.len(),
            forall|k: int| 0 <= k < tpls@.len() ==> chain_ends(items_view@, (#[trigger] tpls@[k])@),
            grids.len() == sizes.len() + 1,
            fails.len() == sizes.len() + 1,
            slots.len() == sizes.len(),
            sizes.len() <= i,
            grids[0] == start,
            grids[sizes.len() as int] == grid@,
            fails[0] == 0,
            fails[sizes.len() as int] == failed as int,
            -1 <= failed <= i,
            rectangular(grid@),
            binary(grid@),
            forall|k: int| 0 <= k < sizes.len() ==> #[trigger] placement_step(
                grids[k],
                grids[k + 1],
                sizes[k],
                fit_attempts as int,
                fails[k],
                fails[k + 1],
                slots[k],
            ),
            placed@.len() == placed_slots(slots).len(),
            forall|j: int| 0 <= j < placed@.len() ==> {
                &&& (#[trigger] placed@[j]).location == ItemLocation::from_slot_spec(placed_slots(slots)[j])
                &&& placed@[j].items@.len() > 0
                &&& opt_view(placed@[j].items@[0].slot_id) == Some("main"@)
                &&& opt_view(placed@[j].items@[0].parent_id) == new_parent(Some(parent_id))
            },
            exists|n: nat| *ids == advanced(start_ids, n),
            tpls@.len() == 0 ==> notes@ == notes_at && placed@.len() == 0 && failure is None,
            turns_built(items_view@, tpls@, parent_id@, sizes, turns),
            forall|k: int| 0 <= k < turns.len() ==> (#[trigger] turns[k]).0 < i,
            placed_from_turns(placed@, slots, turns, placed_turn),
        decreases tpls@.len() - i + if failure is None { 1int } else { 0int },
    {
        let tpl = tpls[i].as_str();
        let ghost ids0 = *ids;
        let created = create_static_loot_item(items_view, default_presets, tpl, Some(parent_id), magazine_has_ammo[i], ids, notes);
        proof {
            let a = choose|n: nat| ids0 == advanced(start_ids, n);
            let b = choose|n: nat| *ids == advanced(ids0, n);
            lemma_advance_adds(start_ids.counter, a, b);
            assert(*ids == advanced(start_ids, a + b));
        }
        match created {
            Err(e) => {
                failure = Some(e);
            },
            Ok(None) => {
                i += 1;
            },
            Ok(Some(ci)) => {
                let ghost built_items = ci.items@;
                proof {
                    lemma_static_kind_by_base_class(items_view@, tpl@);
                }
                let mut items = ci.items;
                let stack_count = ci.stack_count;
                if items.len() == 0 {
                    i += 1;
                } else {
                    let size: Option<(i32, i32)> = if ci.sized_by_tree {
                        measure_loot(items_view, items.as_slice(), items[0].id.as_str())
                    } else {
                        match (ci.width, ci.height) {
                            (Some(w), Some(h)) => Some((w, h)),
                            _ => None,
                        }
                    };
                    if list_holds(strip_children, tpl) && items.len() > 1 {
                        items.truncate(1);
                    }
                    let size = match size {
                        Some((w, h)) => if w > 0 && h > 0 { Some((w, h)) } else { None },
                        None => None,
                    };
                    proof {
                        assert(items_view@.contains_key(tpl@));
                        assert(size == built_footprint(items_view@, tpl@, built_items));
                    }
                    let too_large = match size {
                        Some((w, h)) => !searchable(grid, w, h),
                        None => false,
                    };
                    if too_large {
                        failure = Some(LootError { message: "An item is too large for its container's grid".to_owned() });
                    } else {
                        let ghost before = grid@;
                        let ghost prev_slots = slots;
                        let (slot, next) = place_next(grid, size, failed, fit_attempts);
                        proof {
                            grids = grids.push(grid@);
                            fails = fails.push(next as int);
                            let prev_turns = turns;
                            sizes = sizes.push(size);
                            slots = slots.push(slot);
                            turns = turns.push((i as int, built_items));
                            assert(slots.drop_last() =~= prev_slots);
                            assert(slots.last() == slot);
                            assert forall|k: int| 0 <= k < turns.len() implies {
                                &&& 0 <= (#[trigger] turns[k]).0 < tpls@.len()
                                &&& turns[k].1.len() > 0
                                &&& sizes[k] == built_footprint(items_view@, tpls@[turns[k].0]@, turns[k].1)
                                &&& opt_view(turns[k].1[0].parent_id) == (if parent_id@.len() > 0 { Some(parent_id@) } else { None })
                            } by {
                                if k < prev_turns.len() {
                                    assert(turns[k] == prev_turns[k]);
                                }
                            }
                            assert forall|k: int, l: int| 0 <= k < l < turns.len() implies (#[trigger] turns[k]).0 < (#[trigger] turns[l]).0 by {
                                if l < prev_turns.len() {
                                    assert(turns[k] == prev_turns[k] && turns[l] == prev_turns[l]);
                                } else {
                                    assert(turns[k] == prev_turns[k]);
                                }
                            }
                            assert forall|k: int| 0 <= k < turns.len() implies (#[trigger] turns[k]).0 < i + 1 by {
                                if k < prev_turns.len() {
                                    assert(turns[k] == prev_turns[k]);
                                }
                            }
                            assert(placed_from_turns(placed@, slots, turns, placed_turn)) by {
                                assert forall|j: int| 0 <= j < placed@.len() implies {
                                    let k = #[trigger] placed_turn[j];
                                    &&& 0 <= k < turns.len() && k < slots.len()
                                    &&& slots[k] matches Some(s) && placed@[j].location == ItemLocation::from_slot_spec(s)
                                    &&& 0 < placed@[j].items@.len() <= turns[k].1.len()
                                    &&& same_but_slot(placed@[j].items@[0], turns[k].1[0])
                                    &&& forall|t: int| 1 <= t < placed@[j].items@.len() ==> #[trigger] placed@[j].items@[t] == turns[k].1[t]
                                } by {
                                    let k = placed_turn[j];
                                    assert(turns[k] == prev_turns[k]);
                                    assert(slots[k] == prev_slots[k]);
                                }
                            }
                        }
                        proof {
                            assert(placed_slots(slots) == match slot {
                                Some(s) => placed_slots(prev_slots).push(s),
                                None => placed_slots(prev_slots),
                            });
                            assert forall|k: int| 0 <= k < sizes.len() implies #[trigger] placement_step(
                                grids[k],
                                grids[k + 1],
                                sizes[k],
                                fit_attempts as int,
                                fails[k],
                                fails[k + 1],
                                slots[k],
                            ) by {
                            }
                        }
                        failed = next;
                        match slot {
                            Some(found) => {
                                let ghost kept_items = items@;
                                let mut root = items[0].clone();
                                root.slot_id = Some("main".to_owned());
                                items.set(0, root);
                                let ghost before_placed = placed@;
                                let ghost before_turns = placed_turn;
                                placed.push(PlacedLoot { items, stack_count, location: ItemLocation::from_slot(&found) });
                                proof {
                                    placed_turn = placed_turn.push(turns.len() - 1);
                                    let kt = turns.len() - 1;
                                    assert(turns[kt].1 == built_items);
                                    assert(0 < kept_items.len() <= built_items.len());
                                    assert forall|t: int| 0 <= t < kept_items.len() implies kept_items[t] == built_items[t] by {}
                                    assert(placed_from_turns(placed@, slots, turns, placed_turn)) by {
                                        assert forall|j: int| 0 <= j < placed@.len() implies {
                                            let k = #[trigger] placed_turn[j];
                                            &&& 0 <= k < turns.len() && k < slots.len()
                                            &&& slots[k] matches Some(s) && placed@[j].location == ItemLocation::from_slot_spec(s)
                                            &&& 0 < placed@[j].items@.len() <= turns[k].1.len()
                                            &&& same_but_slot(placed@[j].items@[0], turns[k].1[0])
                                            &&& forall|t: int| 1 <= t < placed@[j].items@.len() ==> #[trigger] placed@[j].items@[t] == turns[k].1[t]
                                        } by {
                                            if j < before_placed.len() {
                                                assert(placed@[j] == before_placed[j]);
                                                assert(placed_turn[j] == before_turns[j]);
                                            } else {
                                                assert forall|t: int| 1 <= t < placed@[j].items@.len() implies #[trigger] placed@[j].items@[t] == turns[kt].1[t] by {
                                                    assert(placed@[j].items@[t] == kept_items[t]);
                                                }
                                            }
                                        }
                                        assert forall|j: int, l: int| 0 <= j < l < placed@.len() implies (#[trigger] placed_turn[j]) < (#[trigger] placed_turn[l]) by {
                                            if l < before_placed.len() {
                                                assert(placed_turn[j] == before_turns[j] && placed_turn[l] == before_turns[l]);
                                            } else {
                                                assert(placed_turn[j] == before_turns[j]);
                                            }
                                        }
                                    }
                                    assert forall|j: int| 0 <= j < placed@.len() implies {
                                        &&& (#[trigger] placed@[j]).location == ItemLocation::from_slot_spec(placed_slots(slots)[j])
                                        &&& placed@[j].items@.len() > 0
                                        &&& opt_view(placed@[j].items@[0].slot_id) == Some("main"@)
                                        &&& opt_view(placed@[j].items@[0].parent_id) == new_parent(Some(parent_id))
                                    } by {
                                        if j < before_placed.len() {
                                            assert(placed@[j] == before_placed[j]);
                                        }
                                    }
                                }
                            },
                            None => {},
                        }
                        i += 1;
                    }
                }
            },
        }
    }
    proof {
        assert(placement_trace(grids, fails, sizes, fit_attempts as int, slots));
        assert(turns_built(items_view@, tpls@, parent_id@, sizes, turns));
        assert(placed_from_turns(placed@, slots, turns, placed_turn));
        assert(failure is None ==> built_through(sizes.len() as int, i as int, tpls@.len() as int, fails[sizes.len() as int]));
    }
    match failure {
        Some(e) => Err(e),
        None => Ok(placed),
    }
}

/// Gives a static container's item (the first of `container_items`) a fresh
/// id, the id its loot goes into; the id is drawn first, so a container
/// without items draws it too and is an error. Returns the new id and the
/// template of the container item.
pub fn claim_container(
    container_items: &mut Vec<SptLootItem>,
    container_id: &str,
    ids: &mut MongoIdGenerator,
) -> (r: Result<(String, String), LootError>)
    ensures
        *final(ids) == advanced(*old(ids), 1),
        old(container_items)@.len() == 0 ==> {
            &&& r matches Err(e) && e.message@ == "Static container: "@ + container_id@ + " holds no items, unable to add loot"@
            &&& final(container_items)@ == old(container_items)@
        },
        old(container_items)@.len() > 0 ==> (r matches Ok((parent_id, tpl)) && {
            &&& nth_id(*old(ids), parent_id@, 0)
            &&& tpl@ == old(container_items)@[0].item.template@
            &&& final(container_items)@.len() == old(container_items)@.len()
            &&& final(container_items)@[0].item.id@ == parent_id@
            &&& same_payload(final(container_items)@[0].item, old(container_items)@[0].item)
            &&& final(container_items)@[0].item.parent_id == old(container_items)@[0].item.parent_id
            &&& final(container_items)@[0].composed_key == old(container_items)@[0].composed_key
            &&& forall|i: int| 1 <= i < old(container_items)@.len() ==> #[trigger] final(container_items)@[i] == old(container_items)@[i]
        }),
{
    let ghost g = *ids;
    let parent_id = ids.generate();
    proof {
        assert(advance(g.counter, 0) == g.counter);
        assert(advance(g.counter, 1) == next_counter(advance(g.counter, 0)));
        let ts = choose|ts: u32| parent_id@ == #[trigger] id_text(ts, g.machine, g.process_id, g.counter);
        assert(parent_id@ == id_text(ts, g.machine, g.process_id, advance(g.counter, 0)));
    }
    if container_items.len() == 0 {
        let m = concat("Static container: ", container_id);
        let m = concat(m.as_str(), " holds no items, unable to add loot");
        return Err(LootError { message: m });
    }
    let tpl = container_items[0].item.template.clone();
    let mut item = container_items[0].item.clone();
    item.id = parent_id.clone();
    let first = SptLootItem { item, composed_key: clone_opt_string(&container_items[0].composed_key) };
    container_items.set(0, first);
    Ok((parent_id, tpl))
}

/// The note for static data missing on map `location_id`, under `key`.
fn missing_data_note(key: &str, location_id: &str) -> (n: Note)
    ensures
        note_view(n) == (NoteLevel::Error, None::<Seq<char>>, Some(key@), seq![(Seq::<char>::empty(), Some(location_id@))]),
{
    let mut args: Vec<(String, Option<String>)> = Vec::new();
    args.push((String::new(), Some(location_id.to_owned())));
    let n = Note { level: NoteLevel::Error, message: None, locale_key: Some(key.to_owned()), args };
    assert(note_view(n).3 =~= seq![(Seq::<char>::empty(), Some(location_id@))]);
    n
}

/// Checks the static data of map `location_id` before any container is
/// filled. Without mounted weapons it is an error, with an error note.
/// Otherwise a missing list of static containers, and a missing list of
/// forced loot, each leave an error note, in that order; and without static
/// containers it is an error.
pub fn check_static_data(
    location_id: &str,
    has_weapons: bool,
    has_containers: bool,
    has_forced: bool,
    notes: &mut Vec<Note>,
) -> (r: Result<(), LootError>)
    ensures
        !has_weapons ==> {
            &&& r matches Err(e) && e.message@ == "Unable to find static weapon data for map: "@ + location_id@
            &&& notes_view(final(notes)@) == notes_view(old(notes)@).push((NoteLevel::Error, None, Some("location-unable_to_find_static_weapon_for_map"@), seq![(Seq::<char>::empty(), Some(location_id@))]))
        },
        has_weapons ==> {
            let missing_containers = (NoteLevel::Error, None::<Seq<char>>, Some("location-unable_to_find_static_container_for_map"@), seq![(Seq::<char>::empty(), Some(location_id@))]);
            let missing_forced = (NoteLevel::Error, None::<Seq<char>>, Some("location-unable_to_find_forced_static_data_for_map"@), seq![(Seq::<char>::empty(), Some(location_id@))]);
            let with_containers = if has_containers { notes_view(old(notes)@) } else { notes_view(old(notes)@).push(missing_containers) };
            &&& notes_view(final(notes)@) == if has_forced { with_containers } else { with_containers.push(missing_forced) }
            &&& (r is Ok <==> has_containers)
            &&& r matches Err(e) ==> e.message@ == "Unable to find static container data for map: "@ + location_id@
        },
{
    let ghost start = notes_view(notes@);
    if !has_weapons {
        notes.push(missing_data_note("location-unable_to_find_static_weapon_for_map", location_id));
        proof {
            assert(notes_view(notes@) =~= start.push(note_view(notes@.last())));
        }
        return Err(LootError { message: concat("Unable to find static weapon data for map: ", location_id) });
    }
    if !has_containers {
        notes.push(missing_data_note("location-unable_to_find_static_container_for_map", location_id));
        proof {
            assert(notes_view(notes@) =~= start.push(note_view(notes@.last())));
        }
    }
    let ghost mid = notes_view(notes@);
    if !has_forced {
        notes.push(missing_data_note("location-unable_to_find_forced_static_data_for_map", location_id));
        proof {
            assert(notes_view(notes@) =~= mid.push(note_view(notes@.last())));
        }
    }
    if !has_containers {
        return Err(LootError { message: concat("Unable to find static container data for map: ", location_id) });
    }
    Ok(())
}

/// Whether the tree below every item of `items` ends within as many levels
/// as the list has items, so that every walk down an item tree of the list
/// ends.
pub fn trees_end(items: &[Item]) -> (r: bool)
    ensures
        r == forall|i: int| 0 <= i < items@.len() ==> finite_below(items@, #[trigger] items@[i], items@.len() as nat),
{
    let mut i: usize = 0;
    while i < items.len()
        invariant
            i <= items@.len(),
            forall|k: int| 0 <= k < i ==> finite_below(items@, #[trigger] items@[k], items@.len() as nat),
        decreases items@.len() - i,
    {
        if !tree_ends(items, &items[i], items.len()) {
            return false;
        }
        i += 1;
    }
    true
}

/// How the containers of one group are picked.
#[derive(Debug, Clone, Copy, PartialEq, Eq, Structural)]
pub enum GroupDraw {
    /// The group spawns nothing.
    Skip,
    /// Each container rolls its own spawn probability (the unnamed group);
    /// the ones that pass are then drawn, as many as passed.
    RollEach,
    /// Every container of the pool is taken.
    TakeAll,
    /// This many are drawn from the pool by weight, with replacement.
    Draw(usize),
}

/// A decimal rendering of a count, for a log line.
fn count_text(n: usize) -> (r: String) {
    let mut digits: Vec<char> = Vec::new();
    let mut v = n;
    loop
        decreases v,
    {
        let d = (v % 10) as u32;
        let c: char = if d == 0 { '0' } else if d == 1 { '1' } else if d == 2 { '2' } else if d == 3 { '3' } else if d == 4 { '4' }
            else if d == 5 { '5' } else if d == 6 { '6' } else if d == 7 { '7' } else if d == 8 { '8' } else { '9' };
        digits.push(c);
        v = v / 10;
        if v == 0 {
            break;
        }
    }
    let mut r = String::new();
    let mut k = digits.len();
    while k > 0
        invariant
            k <= digits@.len(),
        decreases k,
    {
        k -= 1;
        push_char(&mut r, digits[k]);
    }
    r
}

/// Plans the draw of container group `group_id`, which wants `chosen_count`
/// containers from a pool of `pool_size` (the containers below a 100 % spawn
/// chance). A group that wants none spawns nothing; an empty pool spawns
/// nothing, with a debug note; the unnamed group has each container roll its
/// own probability; a group that wants more than its pool takes it all, with
/// a debug note; any other group draws what it wants (none when the count is
/// negative).
pub fn plan_group_draw(group_id: &str, chosen_count: i32, pool_size: usize, notes: &mut Vec<Note>) -> (r: GroupDraw)
    ensures
        chosen_count == 0 ==> r == GroupDraw::Skip && final(notes)@ == old(notes)@,
        chosen_count != 0 && pool_size == 0 ==> {
            &&& r == GroupDraw::Skip
            &&& notes_added(old(notes)@, final(notes)@, 1)
            &&& plain_note(final(notes)@.last(), NoteLevel::Debug, "Group: "@ + group_id@
                + " has no containers with < 100 % spawn chance to choose from, skipping"@)
        },
        chosen_count != 0 && pool_size > 0 && group_id@.len() == 0 ==> r == GroupDraw::RollEach && final(notes)@ == old(notes)@,
        chosen_count != 0 && pool_size > 0 && group_id@.len() > 0 && chosen_count > pool_size ==> {
            &&& r == GroupDraw::TakeAll
            &&& notes_added(old(notes)@, final(notes)@, 1)
            &&& final(notes)@.last().level == NoteLevel::Debug
        },
        chosen_count != 0 && pool_size > 0 && group_id@.len() > 0 && chosen_count <= pool_size ==> {
            &&& r == GroupDraw::Draw(if chosen_count < 0 { 0usize } else { chosen_count as usize })
            &&& final(notes)@ == old(notes)@
        },
{
    proof {
        reveal_strlit("");
    }
    if chosen_count == 0 {
        return GroupDraw::Skip;
    }
    if pool_size == 0 {
        let m = concat("Group: ", group_id);
        let m = concat(m.as_str(), " has no containers with < 100 % spawn chance to choose from, skipping");
        notes.push(plain(NoteLevel::Debug, m));
        return GroupDraw::Skip;
    }
    if str_eq(group_id, "") {
        proof {
            assert(group_id@.len() == 0);
        }
        return GroupDraw::RollEach;
    }
    proof {
        if group_id@.len() == 0 {
            assert(group_id@ =~= ""@);
        }
    }
    match containers_to_draw(chosen_count, pool_size) {
        None => {
            let wanted = count_text(chosen_count as usize);
            let m = concat("Group: ", group_id);
            let m = concat(m.as_str(), " wants: ");
            let m = concat(m.as_str(), wanted.as_str());
            let m = concat(m.as_str(), " containers but pool only has: ");
            let available = count_text(pool_size);
            let m = concat(m.as_str(), available.as_str());
            let m = concat(m.as_str(), ", adding what's available");
            notes.push(plain(NoteLevel::Debug, m));
            GroupDraw::TakeAll
        },
        Some(k) => GroupDraw::Draw(k),
    }
}

} // verus!
