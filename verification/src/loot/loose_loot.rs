//! Loose loot generation: checking a map's loose loot data, building the item
//! that lands on a loose spawn point, the forced loose loot (quest items and
//! every point that always spawns), the split of the other points for the
//! draw, each chosen point's pool, and the build of its chosen item within its
//! spawn limit. The caller makes the floating-point draws.

use vstd::prelude::*;

use crate::loot::item_helper::{
    finite_below, get_item, get_item_with_children, item_size, last_with_id, links, reided, replace_ids, same_payload,
    tree_order,
};
use crate::loot::location_loot_generator::{
    picks, chain_ends, count_in, counts_after, forced_point_kept, forced_points_to_build, holds, list_holds, loose_kind,
    loose_loot_kind, is_stack_class, lemma_loose_kind_by_base_class, item_is_lootable, increment_count, spawned_so_far, random_stack_count, LootError, LootKind,
};
use crate::loot::models::{
    notes_added, opt_view, plain, plain_note, CounterState, Item, ItemView, Note, NoteLevel, SeasonalView, SptLootItem,
};
use crate::loot::mongo_id::{advanced, handed_out, lemma_advance_adds, MongoIdGenerator};
use crate::loot::static_loot::{fresh_item, fresh_root, measurable, measure_loot, stack_count_for, ContainerItem};
use crate::string_map::StringMap;
use crate::strings::{concat, str_eq};

verus! {

/// `ci` carries the footprint its item tree measures to (see
/// `measure_loot`): that of its root with everything inside it, when the list
/// is measurable and the root's template known; none otherwise.
pub open spec fn sized_as_tree(m: Map<Seq<char>, ItemView>, ci: ContainerItem) -> bool {
    let items = ci.items@;
    if items.len() > 0 && measurable(m, items, items[0].id@) {
        match item_size(m, items, items[0].id@) {
            Some((w, h)) => ci.width == Some(w as i32) && ci.height == Some(h as i32),
            None => ci.width is None && ci.height is None,
        }
    } else {
        ci.width is None && ci.height is None
    }
}

/// Built items with the footprint their tree measures to.
fn sized(items_view: &StringMap<ItemView>, items: Vec<Item>, stack_count: Option<i32>) -> (ci: ContainerItem)
    ensures
        ci.items@ == items@,
        ci.stack_count == stack_count,
        ci.sized_by_tree,
        sized_as_tree(items_view@, ci),
{
    let size = if items.len() > 0 { measure_loot(items_view, items.as_slice(), items[0].id.as_str()) } else { None };
    let (width, height) = match size {
        Some((w, h)) => (Some(w), Some(h)),
        None => (None, None),
    };
    ContainerItem { items, width, height, stack_count, sized_by_tree: true }
}

/// The item tree of `chosen` among `pool`: the last item with its id,
/// followed by everything inside it (empty without such an item).
pub open spec fn chosen_tree(chosen: Item, pool: Seq<Item>) -> Seq<Item> {
    match last_with_id(pool, chosen.id@) {
        Some(i) => tree_order(pool, pool[i], pool.len()),
        None => Seq::empty(),
    }
}

/// `out` (with stack size `stack`) is what a loose loot point builds from
/// `chosen`, one of its items `pool`, with a generator in state `g`: for
/// money and ammunition, one new item with a stack size between its template's
/// random bounds; for ammunition boxes and magazines, one new item; for
/// anything else, the chosen item's tree with every id fresh (children follow
/// their parents), cut to the root alone when its template is in `strip`.
pub open spec fn loose_item_built(
    m: Map<Seq<char>, ItemView>,
    chosen: Item,
    pool: Seq<Item>,
    strip: Seq<String>,
    out: Seq<Item>,
    stack: Option<i32>,
    g: MongoIdGenerator,
) -> bool {
    let tpl = chosen.template@;
    &&& (stack is Some) == is_stack_class(m, tpl)
    &&& stack matches Some(c) ==> stack_count_for(m[tpl], c)
    &&& loose_kind(m, tpl) != LootKind::Plain ==> out.len() == 1 && fresh_root(out[0], tpl, None, g)
    &&& loose_kind(m, tpl) == LootKind::Plain ==> {
        let tree = chosen_tree(chosen, pool);
        let kept = if holds(strip, tpl) && tree.len() > 1 { 1 } else { tree.len() as int };
        &&& out.len() == kept
        &&& forall|j: int| 0 <= j < kept ==> same_payload(#[trigger] out[j], tree[j])
        &&& exists|fresh: Seq<Seq<char>>| {
            &&& fresh.len() == tree.len()
            &&& #[trigger] handed_out(g, fresh)
            &&& forall|j: int| 0 <= j < kept ==> #[trigger] links(out)[j] == reided(links(tree), fresh, fresh.len())[j]
        }
    }
}

/// Builds the item that lands on a loose loot point, from `chosen_item`, one
/// of the point's items `loot_items`. An unknown template is an error, with
/// its note. A stack of money or ammunition is a new item with a random
/// stack size; an ammunition box or a magazine is a new item, left without
/// cartridges (with a warning note; for a magazine only when
/// `magazine_has_ammo`); anything else is the chosen item with everything
/// inside it among the point's items, every id fresh, cut down to the item
/// alone when its template is in `strip_children`. The footprint is that of
/// the whole item tree.
pub fn create_dynamic_loot_item(
    items_view: &StringMap<ItemView>,
    chosen_item: &Item,
    loot_items: &[Item],
    strip_children: &[String],
    magazine_has_ammo: bool,
    ids: &mut MongoIdGenerator,
    notes: &mut Vec<Note>,
) -> (r: Result<ContainerItem, LootError>)
    requires
        chain_ends(items_view@, chosen_item.template@),
        last_with_id(loot_items@, chosen_item.id@) matches Some(i) ==> finite_below(loot_items@, loot_items@[i], loot_items@.len()),
    ensures
        exists|n: nat| *final(ids) == advanced(*old(ids), n),
        !items_view@.contains_key(chosen_item.template@) ==> {
            &&& r matches Err(e) && e.message@ == "Item tpl: "@ + chosen_item.template@ + " cannot be found in database"@
            &&& notes_added(old(notes)@, final(notes)@, 1)
            &&& plain_note(final(notes)@.last(), NoteLevel::Error, e_text(chosen_item.template@))
        },
        items_view@.contains_key(chosen_item.template@) ==> (r matches Ok(ci)
            && loose_item_built(items_view@, *chosen_item, loot_items@, strip_children@, ci.items@, ci.stack_count, *old(ids))),
        items_view@.contains_key(chosen_item.template@) && is_stack_class(items_view@, chosen_item.template@) ==> (r matches Ok(ci) && {
            &&& ci.items@.len() == 1
            &&& fresh_root(ci.items@[0], chosen_item.template@, None, *old(ids))
            &&& ci.stack_count matches Some(c) && stack_count_for(items_view@[chosen_item.template@], c)
        }),
        items_view@.contains_key(chosen_item.template@) ==> (r matches Ok(ci) && {
            let kind = loose_kind(items_view@, chosen_item.template@);
            &&& ci.sized_by_tree
            &&& sized_as_tree(items_view@, ci)
            &&& (ci.stack_count is Some) == (kind == LootKind::Stack)
            &&& ci.stack_count matches Some(c) ==> stack_count_for(items_view@[chosen_item.template@], c)
            &&& kind != LootKind::Plain ==> {
                &&& ci.items@.len() == 1
                &&& fresh_root(ci.items@[0], chosen_item.template@, None, *old(ids))
            }
            &&& kind == LootKind::Plain ==> {
                let tree = match last_with_id(loot_items@, chosen_item.id@) {
                    Some(i) => tree_order(loot_items@, loot_items@[i], loot_items@.len()),
                    None => Seq::empty(),
                };
                let kept = if holds(strip_children@, chosen_item.template@) && tree.len() > 1 { 1 } else { tree.len() as int };
                &&& ci.items@.len() == kept
                &&& forall|j: int| 0 <= j < kept ==> same_payload(#[trigger] ci.items@[j], tree[j])
            }
        }),
{
    let ghost start = *ids;
    proof {
        assert(*ids == advanced(start, 0));
        lemma_loose_kind_by_base_class(items_view@, chosen_item.template@);
    }
    let chosen_tpl = chosen_item.template.as_str();
    let template = match get_item(items_view, chosen_tpl) {
        Some(t) => t,
        None => {
            let m = concat("Item tpl: ", chosen_tpl);
            let m = concat(m.as_str(), " cannot be found in database");
            let m2 = concat("Item tpl: ", chosen_tpl);
            let m2 = concat(m2.as_str(), " cannot be found in database");
            notes.push(plain(NoteLevel::Error, m));
            return Err(LootError { message: m2 });
        },
    };
    match loose_loot_kind(items_view, chosen_tpl) {
        LootKind::Stack => {
            let count = random_stack_count(template);
            let mut items: Vec<Item> = Vec::new();
            items.push(fresh_item(chosen_tpl, None, ids));
            Ok(sized(items_view, items, Some(count)))
        },
        LootKind::AmmoBox => {
            let m = concat("Ammo box ", chosen_tpl);
            let m = concat(m.as_str(), " left without cartridges");
            notes.push(plain(NoteLevel::Warning, m));
            let mut items: Vec<Item> = Vec::new();
            items.push(fresh_item(chosen_tpl, None, ids));
            Ok(sized(items_view, items, None))
        },
        LootKind::Magazine => {
            if magazine_has_ammo {
                let m = concat("Magazine ", chosen_tpl);
                let m = concat(m.as_str(), " left without cartridges");
                notes.push(plain(NoteLevel::Warning, m));
            }
            let mut items: Vec<Item> = Vec::new();
            items.push(fresh_item(chosen_tpl, None, ids));
            Ok(sized(items_view, items, None))
        },
        _ => {
            let mut items = get_item_with_children(loot_items, chosen_item.id.as_str());
            let ghost tree = items@;
            replace_ids(items.as_mut_slice(), ids);
            let ghost reided_items = items@;
            if list_holds(strip_children, chosen_tpl) && items.len() > 1 {
                items.truncate(1);
            }
            proof {
                let fresh = choose|fresh: Seq<Seq<char>>| {
                    &&& fresh.len() == tree.len()
                    &&& handed_out(start, fresh)
                    &&& links(reided_items) == reided(links(tree), fresh, fresh.len())
                };
                assert(tree == chosen_tree(*chosen_item, loot_items@));
                assert forall|j: int| 0 <= j < items@.len() implies #[trigger] links(items@)[j]
                    == reided(links(tree), fresh, fresh.len())[j] by {
                    assert(items@[j] == reided_items[j]);
                    assert(links(items@)[j] == links(reided_items)[j]);
                }
            }
            Ok(sized(items_view, items, None))
        },
    }
}

/// A forced loose loot point as the forced loot reads it: whether it has a
/// template, the template's id, and the template's items.
pub struct ForcedPoint {
    pub has_template: bool,
    pub template_id: Option<String>,
    pub items: Vec<Item>,
}

/// `out` (with stack size `stack`) is what forced point `p` builds from its
/// first item, among its items (see `loose_item_built`).
pub open spec fn built_from_point(m: Map<Seq<char>, ItemView>, p: ForcedPoint, strip: Seq<String>, out: Seq<Item>, stack: Option<i32>) -> bool {
    &&& p.items@.len() > 0
    &&& exists|g: MongoIdGenerator| #[trigger] loose_item_built(m, p.items@[0], p.items@, strip, out, stack, g)
}

/// The template of the item a forced point is built from (its first item),
/// when the point has a template and items.
pub open spec fn point_tpl(p: ForcedPoint) -> Option<String> {
    if p.has_template && p.items@.len() > 0 { Some(p.items@[0].template) } else { None }
}

/// The templates of the forced points, in order.
pub open spec fn point_tpls(points: Seq<ForcedPoint>) -> Seq<Option<String>> {
    points.map_values(|p: ForcedPoint| point_tpl(p))
}

/// The forced points built among the first `n`, in order: each point kept
/// (counted within its limit, and in season) whose template id no earlier
/// built point has.
pub open spec fn forced_built(points: Seq<ForcedPoint>, counter: CounterState, seasonal: SeasonalView, n: int) -> Seq<int>
    decreases n,
{
    if n <= 0 {
        Seq::empty()
    } else {
        let prev = forced_built(points, counter, seasonal, n - 1);
        if forced_point_kept(counter, seasonal, point_tpls(points), n - 1)
            && !(exists|k: int| 0 <= k < prev.len() && opt_view(points[#[trigger] prev[k]].template_id) == opt_view(points[n - 1].template_id)) {
            prev.push(n - 1)
        } else {
            prev
        }
    }
}

/// An item list that holds an item with id `id` has a last one.
proof fn lemma_last_with_id_found(items: Seq<Item>, id: Seq<char>, j: int)
    requires
        0 <= j < items.len(),
        items[j].id@ == id,
    ensures
        last_with_id(items, id) is Some,
        last_with_id(items, id)->0 < items.len(),
        last_with_id(items, id)->0 >= 0,
    decreases items.len(),
{
    if items.last().id@ != id {
        lemma_last_with_id_found(items.drop_last(), id, j);
    }
}

/// The only item with id `id` from position `x` on is the last with it.
proof fn lemma_last_with_id_unique(items: Seq<Item>, id: Seq<char>, x: int)
    requires
        0 <= x < items.len(),
        items[x].id@ == id,
        forall|j: int| x < j < items.len() ==> (#[trigger] items[j]).id@ != id,
    ensures
        last_with_id(items, id) == Some(x),
    decreases items.len(),
{
    if x < items.len() - 1 {
        assert(items.last() == items[items.len() - 1]);
        lemma_last_with_id_unique(items.drop_last(), id, x);
    }
}

/// A found position is within the list.
proof fn lemma_last_with_id_bounds(items: Seq<Item>, id: Seq<char>)
    ensures
        last_with_id(items, id) matches Some(i) ==> 0 <= i < items.len(),
    decreases items.len(),
{
    if items.len() > 0 && items.last().id@ != id {
        lemma_last_with_id_bounds(items.drop_last(), id);
    }
}

/// Whether two optional texts are the same.
fn same_opt_text(a: &Option<String>, b: &Option<String>) -> (r: bool)
    ensures
        r == (opt_view(*a) == opt_view(*b)),
{
    match (a, b) {
        (Some(x), Some(y)) => str_eq(x.as_str(), y.as_str()),
        (None, None) => true,
        _ => false,
    }
}

/// The forced loose loot of a map, from the forced points (the map's forced
/// points, then every point that always spawns). Each point with a template
/// and items is counted against the spawn limit of its first item's
/// template, and skipped when that takes it over; a seasonal item is then
/// skipped outside a seasonal event, its count spent all the same. The item
/// of each other point is built from its first item
/// (`create_dynamic_loot_item`, with `magazine_has_ammo` for that point),
/// and the point is kept unless an earlier kept point has its template id,
/// which leaves a debug note instead. Returns each kept point's position
/// with its items (the root first) and the root's stack size, if a stack.
pub fn forced_dynamic_loot(
    points: &[ForcedPoint],
    counter: &mut CounterState,
    seasonal: &SeasonalView,
    items_view: &StringMap<ItemView>,
    strip_children: &[String],
    magazine_has_ammo: &[bool],
    location_name: &str,
    ids: &mut MongoIdGenerator,
    notes: &mut Vec<Note>,
) -> (r: Result<Vec<(usize, Vec<Item>, Option<i32>)>, LootError>)
    requires
        magazine_has_ammo@.len() == points@.len(),
        forall|i: int| 0 <= i < points@.len() && (#[trigger] point_tpls(points@)[i]) is Some
            && old(counter).max_counts@.contains_key(point_tpls(points@)[i]->0@)
            ==> count_in(counts_after(old(counter).tracked_counts@, old(counter).max_counts@, point_tpls(points@), i),
                point_tpls(points@)[i]->0@) < i32::MAX,
        forall|i: int| 0 <= i < points@.len() && (#[trigger] points@[i]).has_template && points@[i].items@.len() > 0 ==> {
            let items = points@[i].items@;
            &&& chain_ends(items_view@, items[0].template@)
            &&& (last_with_id(items, items[0].id@) matches Some(k) ==> finite_below(items, items[k], items.len()))
        },
    ensures
        final(counter).max_counts@ == old(counter).max_counts@,
        final(counter).tracked_counts@ == counts_after(old(counter).tracked_counts@, old(counter).max_counts@,
            point_tpls(points@), points@.len() as int),
        exists|n: nat| *final(ids) == advanced(*old(ids), n),
        r matches Ok(built) ==> {
            let chosen = forced_built(points@, *old(counter), *seasonal, points@.len() as int);
            &&& built@.len() == chosen.len()
            &&& forall|k: int| 0 <= k < built@.len() ==> (#[trigger] built@[k]).0 == chosen[k] && built@[k].1@.len() > 0
            &&& forall|k: int| 0 <= k < built@.len() ==> built_from_point(items_view@, points@[(#[trigger] built@[k]).0 as int],
                strip_children@, built@[k].1@, built@[k].2)
        },
{
    let ghost start_ids = *ids;
    let ghost start = *counter;
    proof {
        assert(*ids == advanced(start_ids, 0));
    }
    let mut tpls: Vec<Option<String>> = Vec::new();
    let mut i: usize = 0;
    while i < points.len()
        invariant
            i <= points@.len(),
            tpls@.len() == i,
            forall|k: int| 0 <= k < i ==> opt_view(#[trigger] tpls@[k]) == opt_view(point_tpls(points@)[k]),
            forall|k: int| 0 <= k < i ==> #[trigger] tpls@[k] == point_tpls(points@)[k],
        decreases points@.len() - i,
    {
        let t = if points[i].has_template && points[i].items.len() > 0 {
            Some(points[i].items[0].template.clone())
        } else {
            None
        };
        tpls.push(t);
        i += 1;
    }
    assert(tpls@ =~= point_tpls(points@));
    let keep = forced_points_to_build(counter, seasonal, tpls.as_slice());

    let mut built: Vec<(usize, Vec<Item>, Option<i32>)> = Vec::new();
    let mut failure: Option<LootError> = None;
    let mut i: usize = 0;
    while i < points.len() && failure.is_none()
        invariant
            i <= points@.len(),
            keep@.len() == points@.len(),
            magazine_has_ammo@.len() == points@.len(),
            counter.max_counts@ == start.max_counts@,
            counter.tracked_counts@ == counts_after(start.tracked_counts@, start.max_counts@, point_tpls(points@), points@.len() as int),
            forall|k: int| 0 <= k < keep@.len() ==> #[trigger] keep@[k] == forced_point_kept(start, *seasonal, point_tpls(points@), k),
            forall|k: int| 0 <= k < points@.len() && (#[trigger] points@[k]).has_template && points@[k].items@.len() > 0 ==> {
                let items = points@[k].items@;
                &&& chain_ends(items_view@, items[0].template@)
                &&& (last_with_id(items, items[0].id@) matches Some(x) ==> finite_below(items, items[x], items.len()))
            },
            exists|n: nat| *ids == advanced(start_ids, n),
            built@.len() == forced_built(points@, start, *seasonal, i as int).len(),
            forall|k: int| 0 <= k < built@.len() ==> (#[trigger] built@[k]).0 == forced_built(points@, start, *seasonal, i as int)[k]
                && built@[k].1@.len() > 0 && built@[k].0 < i,
            forall|k: int| 0 <= k < built@.len() ==> built_from_point(items_view@, points@[(#[trigger] built@[k]).0 as int],
                strip_children@, built@[k].1@, built@[k].2),
        decreases points@.len() - i + if failure is None { 1int } else { 0int },
    {
        let ghost prev = forced_built(points@, start, *seasonal, i as int);
        if keep[i] {
            proof {
                assert(forced_point_kept(start, *seasonal, point_tpls(points@), i as int));
                assert(point_tpls(points@)[i as int] is Some);
            }
            let point = &points[i];
            let ghost items = point.items@;
            proof {
                lemma_last_with_id_found(items, items[0].id@, 0);
            }
            let ghost ids0 = *ids;
            let created = create_dynamic_loot_item(
                items_view,
                &point.items[0],
                point.items.as_slice(),
                strip_children,
                magazine_has_ammo[i],
                ids,
                notes,
            );
            proof {
                let a = choose|n: nat| ids0 == advanced(start_ids, n);
                let b = choose|n: nat| *ids == advanced(ids0, n);
                lemma_advance_adds(start_ids.counter, a, b);
                assert(*ids == advanced(start_ids, a + b));
            }
            proof {
                let x = last_with_id(items, items[0].id@)->0;
                let tree = tree_order(items, items[x], items.len());
                assert(tree.len() > 0);
            }
            match created {
                Err(e) => {
                    failure = Some(e);
                },
                Ok(created) => {
            let mut seen = false;
            let mut k: usize = 0;
            while k < built.len()
                invariant
                    k <= built@.len(),
                    built@.len() == prev.len(),
                    i < points@.len(),
                    forall|t: int| 0 <= t < built@.len() ==> (#[trigger] built@[t]).0 == prev[t] && built@[t].0 < i,
                    seen == exists|t: int| 0 <= t < k && opt_view(points@[#[trigger] prev[t]].template_id) == opt_view(points@[i as int].template_id),
                decreases built@.len() - k,
            {
                let j = built[k].0;
                if same_opt_text(&points[j].template_id, &points[i].template_id) {
                    seen = true;
                }
                proof {
                    assert(built@[k as int].0 == prev[k as int]);
                }
                k += 1;
            }
            if seen {
                let id_text: &str = match &points[i].template_id {
                    Some(t) => t.as_str(),
                    None => "",
                };
                let m = concat("Attempted to add a forced loot location with Id: ", id_text);
                let m = concat(m.as_str(), " to map ");
                let m = concat(m.as_str(), location_name);
                let m = concat(m.as_str(), " that already has that id in use, skipping");
                notes.push(plain(NoteLevel::Debug, m));
                proof {
                    assert(forced_built(points@, start, *seasonal, i + 1) == prev);
                }
            } else {
                let ghost before = built@;
                proof {
                    assert(loose_item_built(items_view@, points@[i as int].items@[0], points@[i as int].items@, strip_children@,
                        created.items@, created.stack_count, ids0));
                    assert(built_from_point(items_view@, points@[i as int], strip_children@, created.items@, created.stack_count));
                }
                built.push((i, created.items, created.stack_count));
                proof {
                    assert forall|t: int| 0 <= t < built@.len() implies built_from_point(items_view@, points@[(#[trigger] built@[t]).0 as int],
                        strip_children@, built@[t].1@, built@[t].2) by {
                        if t < before.len() {
                            assert(built@[t] == before[t]);
                        }
                    }
                    assert(forced_built(points@, start, *seasonal, i + 1) == prev.push(i as int));
                    assert forall|t: int| 0 <= t < built@.len() implies (#[trigger] built@[t]).0 == forced_built(points@, start, *seasonal, i + 1)[t]
                        && built@[t].1@.len() > 0 && built@[t].0 < i + 1 by {
                        if t < before.len() {
                            assert(built@[t] == before[t]);
                        }
                    }
                }
            }
            i += 1;
                },
            }
        } else {
            proof {
                assert(forced_built(points@, start, *seasonal, i + 1) == prev);
            }
            i += 1;
        }
    }
    match failure {
        Some(e) => Err(e),
        None => Ok(built),
    }
}

/// The message of the error for an unknown loose loot template.
pub open spec fn e_text(tpl: Seq<char>) -> Seq<char> {
    "Item tpl: "@ + tpl + " cannot be found in database"@
}

/// What the draw of loose spawn points reads of a point: its template id
/// (empty when it has none), whether it always spawns, and whether its spawn
/// probability is exactly 1 (the caller compares the probability).
pub struct LoosePoint {
    pub template_id: String,
    pub always_spawn: bool,
    pub certain: bool,
}

/// Point `i` is on the loose loot blacklist.
pub open spec fn blacklisted_point(points: Seq<LoosePoint>, blacklist: Seq<String>, i: int) -> bool {
    holds(blacklist, points[i].template_id@)
}

/// Splits the loose spawn points for the draw: a blacklisted point is
/// ignored, with a debug note; a point that always spawns is left to the
/// forced loot; a point certain to spawn is guaranteed; every other point is
/// drawn by its probability. Returns the guaranteed and the drawable points,
/// by position, in order.
pub fn split_loose_points(points: &[LoosePoint], blacklist: &[String], notes: &mut Vec<Note>) -> (r: (Vec<usize>, Vec<usize>))
    ensures
        picks(r.0@, points@.len() as int, |i: int| !blacklisted_point(points@, blacklist@, i) && !points@[i].always_spawn && points@[i].certain),
        picks(r.1@, points@.len() as int, |i: int| !blacklisted_point(points@, blacklist@, i) && !points@[i].always_spawn && !points@[i].certain),
        final(notes)@.len() >= old(notes)@.len(),
        notes_added(old(notes)@, final(notes)@, final(notes)@.len() - old(notes)@.len()),
{
    let ghost g = |i: int| !blacklisted_point(points@, blacklist@, i) && !points@[i].always_spawn && points@[i].certain;
    let ghost d = |i: int| !blacklisted_point(points@, blacklist@, i) && !points@[i].always_spawn && !points@[i].certain;
    let ghost start = notes@;
    let mut guaranteed: Vec<usize> = Vec::new();
    let mut drawable: Vec<usize> = Vec::new();
    let mut i: usize = 0;
    while i < points.len()
        invariant
            i <= points@.len(),
            notes@.len() >= start.len(),
            notes_added(start, notes@, notes@.len() - start.len()),
            forall|k: int| 0 <= k < guaranteed@.len() ==> (#[trigger] guaranteed@[k]) < i && g(guaranteed@[k] as int),
            forall|k: int, l: int| 0 <= k < l < guaranteed@.len() ==> (#[trigger] guaranteed@[k]) < (#[trigger] guaranteed@[l]),
            forall|x: int| 0 <= x < i && #[trigger] g(x) ==> exists|k: int| 0 <= k < guaranteed@.len() && guaranteed@[k] == x,
            forall|k: int| 0 <= k < drawable@.len() ==> (#[trigger] drawable@[k]) < i && d(drawable@[k] as int),
            forall|k: int, l: int| 0 <= k < l < drawable@.len() ==> (#[trigger] drawable@[k]) < (#[trigger] drawable@[l]),
            forall|x: int| 0 <= x < i && #[trigger] d(x) ==> exists|k: int| 0 <= k < drawable@.len() && drawable@[k] == x,
            g == (|i: int| !blacklisted_point(points@, blacklist@, i) && !points@[i].always_spawn && points@[i].certain),
            d == (|i: int| !blacklisted_point(points@, blacklist@, i) && !points@[i].always_spawn && !points@[i].certain),
        decreases points@.len() - i,
    {
        let point = &points[i];
        if list_holds(blacklist, point.template_id.as_str()) {
            let ghost prevn = notes@;
            notes.push(plain(NoteLevel::Debug, concat("Ignoring loose loot location: ", point.template_id.as_str())));
            proof {
                assert forall|x: int| 0 <= x < start.len() implies #[trigger] notes@[x] == start[x] by {
                    assert(notes@[x] == prevn[x]);
                }
            }
        } else if point.always_spawn {
        } else if point.certain {
            let ghost before = guaranteed@;
            guaranteed.push(i);
            proof {
                assert forall|x: int| 0 <= x < i + 1 && #[trigger] g(x) implies exists|k: int| 0 <= k < guaranteed@.len() && guaranteed@[k] == x by {
                    if x < i {
                        let k = choose|k: int| 0 <= k < before.len() && before[k] == x;
                        assert(guaranteed@[k] == x);
                    } else {
                        assert(guaranteed@[before.len() as int] == x);
                    }
                }
            }
        } else {
            let ghost before = drawable@;
            drawable.push(i);
            proof {
                assert forall|x: int| 0 <= x < i + 1 && #[trigger] d(x) implies exists|k: int| 0 <= k < drawable@.len() && drawable@[k] == x by {
                    if x < i {
                        let k = choose|k: int| 0 <= k < before.len() && before[k] == x;
                        assert(drawable@[k] == x);
                    } else {
                        assert(drawable@[before.len() as int] == x);
                    }
                }
            }
        }
        i += 1;
    }
    (guaranteed, drawable)
}

/// The key a loot item or a distribution entry is known by: its composed
/// key, or the empty key when it has none.
pub open spec fn key_of(k: Option<String>) -> Seq<char> {
    match k {
        Some(s) => s@,
        None => Seq::empty(),
    }
}

/// Item `i` of a spawn point may be loot.
pub open spec fn lootable_item(items: Seq<SptLootItem>, seasonal: SeasonalView, blacklist: Seq<String>, i: int) -> bool {
    &&& !holds(blacklist, items[i].item.template@)
    &&& (seasonal.seasonal_event_active || !holds(seasonal.inactive_seasonal_items@, items[i].item.template@))
}

/// Distribution entry `j` names the key of one of the lootable items.
pub open spec fn drawable_entry(
    items: Seq<SptLootItem>,
    entry_keys: Seq<Option<String>>,
    seasonal: SeasonalView,
    blacklist: Seq<String>,
    j: int,
) -> bool {
    exists|i: int| 0 <= i < items.len() && lootable_item(items, seasonal, blacklist, i) && #[trigger] key_of(items[i].composed_key) == key_of(entry_keys[j])
}

/// A copy of an optional text.
fn copy_opt(s: &Option<String>) -> (r: Option<String>)
    ensures
        opt_view(r) == opt_view(*s),
{
    match s {
        Some(t) => Some(t.clone()),
        None => None,
    }
}

/// The note for a spawn point whose pool comes out empty, under `key`.
fn point_note(level: NoteLevel, key: &str, template_id: &Option<String>) -> (n: Note)
    ensures
        n.level == level,
        opt_view(n.locale_key) == Some(key@),
        n.message is None,
{
    let mut args: Vec<(String, Option<String>)> = Vec::new();
    args.push((String::new(), copy_opt(template_id)));
    Note { level, message: None, locale_key: Some(key.to_owned()), args }
}

/// The pool of a chosen loose spawn point with template id `template_id`:
/// its items that may be loot (not blacklisted, seasonal ones only in
/// season), and the entries of its item distribution (by their keys) that
/// name one of those items' keys. With no such items, or no such entries, the
/// point is skipped with a note.
pub fn loose_point_pool(
    items: &[SptLootItem],
    entry_keys: &[Option<String>],
    seasonal: &SeasonalView,
    blacklist: &[String],
    template_id: &Option<String>,
    notes: &mut Vec<Note>,
) -> (r: Option<(Vec<usize>, Vec<usize>)>)
    ensures
        r matches Some((kept, entries)) ==> {
            &&& picks(kept@, items@.len() as int, |i: int| lootable_item(items@, *seasonal, blacklist@, i))
            &&& picks(entries@, entry_keys@.len() as int, |j: int| drawable_entry(items@, entry_keys@, *seasonal, blacklist@, j))
            &&& kept@.len() > 0 && entries@.len() > 0
            &&& final(notes)@ == old(notes)@
        },
        r is None ==> notes_added(old(notes)@, final(notes)@, 1),
        r is None ==> (forall|i: int| 0 <= i < items@.len() ==> !lootable_item(items@, *seasonal, blacklist@, i))
            || (forall|j: int| 0 <= j < entry_keys@.len() ==> !drawable_entry(items@, entry_keys@, *seasonal, blacklist@, j)),
{
    let ghost lk = |i: int| lootable_item(items@, *seasonal, blacklist@, i);
    let ghost dk = |j: int| drawable_entry(items@, entry_keys@, *seasonal, blacklist@, j);
    let mut kept: Vec<usize> = Vec::new();
    let mut i: usize = 0;
    while i < items.len()
        invariant
            i <= items@.len(),
            lk == (|i: int| lootable_item(items@, *seasonal, blacklist@, i)),
            forall|k: int| 0 <= k < kept@.len() ==> (#[trigger] kept@[k]) < i && lk(kept@[k] as int),
            forall|k: int, l: int| 0 <= k < l < kept@.len() ==> (#[trigger] kept@[k]) < (#[trigger] kept@[l]),
            forall|x: int| 0 <= x < i && #[trigger] lk(x) ==> exists|k: int| 0 <= k < kept@.len() && kept@[k] == x,
        decreases items@.len() - i,
    {
        if item_is_lootable(seasonal, blacklist, items[i].item.template.as_str()) {
            let ghost before = kept@;
            kept.push(i);
            proof {
                assert forall|x: int| 0 <= x < i + 1 && #[trigger] lk(x) implies exists|k: int| 0 <= k < kept@.len() && kept@[k] == x by {
                    if x < i {
                        let k = choose|k: int| 0 <= k < before.len() && before[k] == x;
                        assert(kept@[k] == x);
                    } else {
                        assert(kept@[before.len() as int] == x);
                    }
                }
            }
        }
        i += 1;
    }
    if kept.len() == 0 {
        notes.push(point_note(NoteLevel::Debug, "location-spawnpoint_missing_items", template_id));
        proof {
            assert forall|x: int| 0 <= x < items@.len() implies !lootable_item(items@, *seasonal, blacklist@, x) by {
                assert(!lk(x));
            }
        }
        return None;
    }

    let mut entries: Vec<usize> = Vec::new();
    let mut j: usize = 0;
    while j < entry_keys.len()
        invariant
            j <= entry_keys@.len(),
            lk == (|i: int| lootable_item(items@, *seasonal, blacklist@, i)),
            dk == (|j: int| drawable_entry(items@, entry_keys@, *seasonal, blacklist@, j)),
            forall|k: int| 0 <= k < kept@.len() ==> (#[trigger] kept@[k]) < items@.len() && lk(kept@[k] as int),
            forall|x: int| 0 <= x < items@.len() && #[trigger] lk(x) ==> exists|k: int| 0 <= k < kept@.len() && kept@[k] == x,
            forall|k: int| 0 <= k < entries@.len() ==> (#[trigger] entries@[k]) < j && dk(entries@[k] as int),
            forall|k: int, l: int| 0 <= k < l < entries@.len() ==> (#[trigger] entries@[k]) < (#[trigger] entries@[l]),
            forall|x: int| 0 <= x < j && #[trigger] dk(x) ==> exists|k: int| 0 <= k < entries@.len() && entries@[k] == x,
        decreases entry_keys@.len() - j,
    {
        let key: &str = match &entry_keys[j] {
            Some(k) => k.as_str(),
            None => "",
        };
        proof {
            reveal_strlit("");
            assert(key@ == key_of(entry_keys@[j as int]));
        }
        let mut found = false;
        let mut k: usize = 0;
        while k < kept.len()
            invariant
                k <= kept@.len(),
                key@ == key_of(entry_keys@[j as int]),
                lk == (|i: int| lootable_item(items@, *seasonal, blacklist@, i)),
                forall|t: int| 0 <= t < kept@.len() ==> (#[trigger] kept@[t]) < items@.len() && lk(kept@[t] as int),
                found ==> dk(j as int),
                !found ==> forall|t: int| 0 <= t < k ==> key_of(items@[#[trigger] kept@[t] as int].composed_key) != key@,
                dk == (|j: int| drawable_entry(items@, entry_keys@, *seasonal, blacklist@, j)),
                j < entry_keys@.len(),
            decreases kept@.len() - k,
        {
            let x = kept[k];
            let item_key: &str = match &items[x].composed_key {
                Some(c) => c.as_str(),
                None => "",
            };
            proof {
                reveal_strlit("");
                assert(item_key@ == key_of(items@[x as int].composed_key));
            }
            if !found && str_eq(item_key, key) {
                found = true;
                proof {
                    assert(lootable_item(items@, *seasonal, blacklist@, x as int));
                    assert(key_of(items@[x as int].composed_key) == key_of(entry_keys@[j as int]));
                }
            }
            k += 1;
        }
        proof {
            if !found {
                assert forall|x: int| 0 <= x < items@.len() && lootable_item(items@, *seasonal, blacklist@, x)
                    implies #[trigger] key_of(items@[x].composed_key) != key_of(entry_keys@[j as int]) by {
                    assert(lk(x));
                    let t = choose|t: int| 0 <= t < kept@.len() && kept@[t] == x;
                    assert(key_of(items@[kept@[t] as int].composed_key) != key@);
                }
                assert(!dk(j as int));
            }
        }
        if found {
            let ghost before = entries@;
            entries.push(j);
            proof {
                assert forall|y: int| 0 <= y < j + 1 && #[trigger] dk(y) implies exists|t: int| 0 <= t < entries@.len() && entries@[t] == y by {
                    if y < j {
                        let t = choose|t: int| 0 <= t < before.len() && before[t] == y;
                        assert(entries@[t] == y);
                    } else {
                        assert(entries@[before.len() as int] == y);
                    }
                }
            }
        }
        j += 1;
    }
    if entries.len() == 0 {
        notes.push(point_note(NoteLevel::Warning, "location-loot_pool_is_empty_skipping", template_id));
        proof {
            assert forall|y: int| 0 <= y < entry_keys@.len() implies !drawable_entry(items@, entry_keys@, *seasonal, blacklist@, y) by {
                assert(!dk(y));
            }
        }
        return None;
    }
    Some((kept, entries))
}

/// The position of the first item known by `key`, if any.
pub open spec fn first_keyed(items: Seq<SptLootItem>, key: Seq<char>) -> Option<int>
    decreases items.len(),
{
    if items.len() == 0 {
        None
    } else {
        match first_keyed(items.drop_last(), key) {
            Some(i) => Some(i),
            None => if key_of(items.last().composed_key) == key { Some(items.len() - 1) } else { None },
        }
    }
}

/// The items of a pool of loot items.
pub open spec fn pool_items(items: Seq<SptLootItem>) -> Seq<Item> {
    items.map_values(|l: SptLootItem| l.item)
}

/// `after` is `before` with one more spawn of `tpl` counted, when `tpl` has a
/// limit.
pub open spec fn counted_once(before: CounterState, after: CounterState, tpl: Seq<char>) -> bool {
    &&& after.max_counts@ == before.max_counts@
    &&& after.tracked_counts@ == if before.max_counts@.contains_key(tpl) {
        before.tracked_counts@.insert(tpl, (spawned_so_far(before, tpl) + 1) as i32)
    } else {
        before.tracked_counts@
    }
}

/// Builds the item of a chosen loose spawn point, from its pool of lootable
/// `items` and the key the draw chose (`None` when the draw gave nothing):
/// the first item known by that key is built (`create_dynamic_loot_item`,
/// its children taken from the pool), and the root of what was built is
/// counted against its template's spawn limit; over the limit, nothing is
/// kept. Without an item known by the key the point is skipped, with a
/// warning note. Returns the items built (the root first) and the root's
/// stack size, if a stack.
pub fn build_loose_point(
    items: &[SptLootItem],
    chosen_key: Option<&str>,
    location_id: &Option<String>,
    items_view: &StringMap<ItemView>,
    strip_children: &[String],
    magazine_has_ammo: bool,
    counter: &mut CounterState,
    ids: &mut MongoIdGenerator,
    notes: &mut Vec<Note>,
) -> (r: Result<Option<(Vec<Item>, Option<i32>)>, LootError>)
    requires
        forall|i: int| 0 <= i < items@.len() ==> chain_ends(items_view@, (#[trigger] items@[i]).item.template@),
        forall|i: int| 0 <= i < items@.len() ==> (last_with_id(pool_items(items@), (#[trigger] items@[i]).item.id@) matches Some(x)
            ==> finite_below(pool_items(items@), pool_items(items@)[x], items@.len())),
        forall|t: Seq<char>| #[trigger] old(counter).max_counts@.contains_key(t) ==> spawned_so_far(*old(counter), t) < i32::MAX,
    ensures
        exists|n: nat| *final(ids) == advanced(*old(ids), n),
        (chosen_key is None || first_keyed(items@, chosen_key->0@) is None) ==> {
            &&& r matches Ok(None)
            &&& *final(counter) == *old(counter)
            &&& notes_added(old(notes)@, final(notes)@, 1)
            &&& final(notes)@.last().level == NoteLevel::Warning
        },
        r matches Ok(Some((built, stack))) ==> {
            let x = first_keyed(items@, chosen_key->0@)->0;
            &&& chosen_key is Some && first_keyed(items@, chosen_key->0@) is Some
            &&& exists|g: MongoIdGenerator|
                #[trigger] loose_item_built(items_view@, items@[x].item, pool_items(items@), strip_children@, built@, stack, g)
            &&& (forall|j: int| x < j < items@.len() ==> (#[trigger] items@[j]).item.id@ != items@[x].item.id@)
                ==> built@[0].template@ == items@[x].item.template@
        },
        r matches Ok(Some((built, _))) ==> {
            &&& chosen_key is Some && first_keyed(items@, chosen_key->0@) is Some
            &&& built@.len() > 0
            &&& counted_once(*old(counter), *final(counter), built@[0].template@)
            &&& !(old(counter).max_counts@.contains_key(built@[0].template@)
                && spawned_so_far(*old(counter), built@[0].template@) + 1 > old(counter).max_counts@[built@[0].template@])
        },
{
    let ghost start_ids = *ids;
    proof {
        assert(*ids == advanced(start_ids, 0));
    }
    let mut found: Option<usize> = None;
    match chosen_key {
        Some(key) => {
            let mut k: usize = 0;
            while k < items.len()
                invariant
                    k <= items@.len(),
                    first_keyed(items@.take(k as int), key@) == match found {
                        Some(x) => Some(x as int),
                        None => None::<int>,
                    },
                    found matches Some(x) ==> x < k,
                decreases items@.len() - k,
            {
                let item_key: &str = match &items[k].composed_key {
                    Some(c) => c.as_str(),
                    None => "",
                };
                proof {
                    reveal_strlit("");
                    assert(item_key@ == key_of(items@[k as int].composed_key));
                    assert(items@.take(k + 1).drop_last() =~= items@.take(k as int));
                    assert(items@.take(k + 1).last() == items@[k as int]);
                }
                if found.is_none() && str_eq(item_key, key) {
                    found = Some(k);
                }
                k += 1;
            }
            assert(items@.take(items@.len() as int) =~= items@);
        },
        None => {},
    }
    proof {
        if chosen_key is Some && found is Some {
            assert(found->0 == first_keyed(items@, chosen_key->0@)->0);
        }
    }
    let chosen = match found {
        Some(x) => x,
        None => {
            let shown: &str = match chosen_key {
                Some(key) => key,
                None => "",
            };
            let place: &str = match location_id {
                Some(l) => l.as_str(),
                None => "",
            };
            let m = concat("Unable to find item with composed key: ", shown);
            let m = concat(m.as_str(), ", skipping spawn point: ");
            let m = concat(m.as_str(), place);
            let m = concat(m.as_str(), " ");
            notes.push(plain(NoteLevel::Warning, m));
            return Ok(None);
        },
    };

    let mut pool: Vec<Item> = Vec::new();
    let mut k: usize = 0;
    while k < items.len()
        invariant
            k <= items@.len(),
            pool@ == pool_items(items@).take(k as int),
        decreases items@.len() - k,
    {
        pool.push(items[k].item.clone());
        assert(pool@ =~= pool_items(items@).take(k + 1));
        k += 1;
    }
    assert(pool@ =~= pool_items(items@));
    let ghost ids0 = *ids;
    let built = create_dynamic_loot_item(
        items_view,
        &items[chosen].item,
        pool.as_slice(),
        strip_children,
        magazine_has_ammo,
        ids,
        notes,
    );
    proof {
        let b = choose|n: nat| *ids == advanced(ids0, n);
        assert(*ids == advanced(start_ids, b));
    }
    let built = match built {
        Ok(c) => c,
        Err(e) => return Err(e),
    };
    proof {
        let chosen_item = items@[chosen as int].item;
        assert(pool_items(items@)[chosen as int] == chosen_item);
        lemma_last_with_id_found(pool_items(items@), chosen_item.id@, chosen as int);
        let x = last_with_id(pool_items(items@), chosen_item.id@)->0;
        assert(tree_order(pool_items(items@), pool_items(items@)[x], items@.len()).len() > 0);
        assert(loose_item_built(items_view@, chosen_item, pool_items(items@), strip_children@, built.items@, built.stack_count, ids0));
        if forall|j: int| chosen < j < items@.len() ==> (#[trigger] items@[j]).item.id@ != items@[chosen as int].item.id@ {
            lemma_last_with_id_unique(pool_items(items@), chosen_item.id@, chosen as int);
            assert(x == chosen);
            let tree = chosen_tree(chosen_item, pool_items(items@));
            assert(tree[0] == pool_items(items@)[x]);
        }
    }
    if built.items.len() == 0 {
        return Ok(None);
    }
    let over = increment_count(counter, built.items[0].template.as_str());
    if over {
        return Ok(None);
    }
    Ok(Some((built.items, built.stack_count)))
}

/// Forced loose loot lands once per template id: no two forced points built
/// share a template id, and they are built in the order they are listed.
pub proof fn lemma_forced_loot_lands_once_per_template_id(
    points: Seq<ForcedPoint>,
    counter: CounterState,
    seasonal: SeasonalView,
    n: int,
)
    ensures
        forall|k: int, l: int| #![trigger forced_built(points, counter, seasonal, n)[k], forced_built(points, counter, seasonal, n)[l]]
            0 <= k < l < forced_built(points, counter, seasonal, n).len() ==> {
            &&& opt_view(points[forced_built(points, counter, seasonal, n)[k]].template_id)
                != opt_view(points[forced_built(points, counter, seasonal, n)[l]].template_id)
            &&& forced_built(points, counter, seasonal, n)[k] < forced_built(points, counter, seasonal, n)[l]
        },
        forall|k: int| 0 <= k < forced_built(points, counter, seasonal, n).len() ==>
            0 <= #[trigger] forced_built(points, counter, seasonal, n)[k] < n,
    decreases n,
{
    if n > 0 {
        lemma_forced_loot_lands_once_per_template_id(points, counter, seasonal, n - 1);
        let prev = forced_built(points, counter, seasonal, n - 1);
        let cur = forced_built(points, counter, seasonal, n);
        if cur != prev {
            assert(cur == prev.push(n - 1));
            assert forall|k: int, l: int| 0 <= k < l < cur.len() implies {
                &&& opt_view(points[#[trigger] cur[k]].template_id) != opt_view(points[#[trigger] cur[l]].template_id)
                &&& cur[k] < cur[l]
            } by {
                if l == cur.len() - 1 {
                    assert(cur[k] == prev[k]);
                    if opt_view(points[prev[k]].template_id) == opt_view(points[n - 1].template_id) {
                        assert(exists|j: int| 0 <= j < prev.len() && opt_view(points[#[trigger] prev[j]].template_id) == opt_view(points[n - 1].template_id));
                    }
                } else {
                    assert(cur[k] == prev[k] && cur[l] == prev[l]);
                }
            }
            assert forall|k: int| 0 <= k < cur.len() implies 0 <= #[trigger] cur[k] < n by {
                if k < prev.len() {
                    assert(cur[k] == prev[k]);
                }
            }
        }
    }
}

/// Checks the loose loot data of map `location_name`: its spawn points, its
/// forced spawn points and its spawn point count must all be there; without
/// any of them it is an error.
pub fn check_loose_data(location_name: &str, has_spawnpoints: bool, has_forced: bool, has_count: bool) -> (r: Result<(), LootError>)
    ensures
        r is Ok <==> (has_spawnpoints && has_forced && has_count),
        r matches Err(e) ==> e.message@ == "Loose loot data for map: "@ + location_name@ + " is incomplete"@,
{
    if has_spawnpoints && has_forced && has_count {
        Ok(())
    } else {
        let m = concat("Loose loot data for map: ", location_name);
        Err(LootError { message: concat(m.as_str(), " is incomplete") })
    }
}

} // verus!
