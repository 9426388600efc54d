//! The decisions of loot generation: spawn limits per template, which
//! containers, spawn points and items the season allows, which templates may
//! be loot at all, which containers always spawn, how the others are grouped
//! for the draw, which templates go into a container, which forced points are
//! built, how a weapon is built from its preset, which spawn point wins when
//! several share a location, and where each item of a container's loot is
//! placed in its grid. The floating-point draws these decisions leave open
//! are made by the caller, who hands back their outcomes.

use vstd::prelude::*;

use crate::loot::container_extensions::{
    binary, candidate, cell, cols, find_slot_for_item, fits, in_bounds, in_rect, lemma_found_slot_can_be_filled, lex_lt,
    no_slot, placed_height, placed_width, rectangular, same_shape, scan_sizes_ok, try_fill_container_map_with_item,
    FindSlotResult,
};
use crate::loot::item_helper::{
    ancestor, armor_bases, armor_item_can_hold_mods, has_base, is_of_baseclass, links, mapped_link, parent_of, reparent_item_and_children,
    reparent_map, same_payload, among, AMMO, AMMO_BOX, ARMOR, HEADWEAR, MAGAZINE, MONEY, VEST, WEAPON,
};
use crate::loot::models::{
    keyed_note, note_view, notes_added, notes_view, opt_str, opt_view, owned_opt, plain, plain_note, CounterState, Item, ItemView, Note,
    NoteLevel, SeasonalView,
};
use crate::loot::mongo_id::{advance, advanced, handed_out, id_text, lemma_advance_adds, nth_id, MongoIdGenerator};
use crate::strings::concat;
use crate::loot::random_util::get_int;
use crate::string_map::StringMap;
use crate::strings::str_eq;

verus! {

/// How many of `key` have spawned so far (0 when none were counted yet).
pub open spec fn spawned_so_far(counter: CounterState, key: Seq<char>) -> int {
    if counter.tracked_counts@.contains_key(key) {
        counter.tracked_counts@[key] as int
    } else {
        0
    }
}

/// Counts one more spawn of `key` and reports whether that takes it over its
/// limit. A key without a limit is not counted: nothing changes and the answer
/// is `false`.
pub fn increment_count(counter: &mut CounterState, key: &str) -> (over_limit: bool)
    requires
        old(counter).max_counts@.contains_key(key@) ==> spawned_so_far(*old(counter), key@) < i32::MAX,
    ensures
        final(counter).max_counts@ == old(counter).max_counts@,
        !old(counter).max_counts@.contains_key(key@) ==> {
            &&& !over_limit
            &&& final(counter).tracked_counts@ == old(counter).tracked_counts@
        },
        old(counter).max_counts@.contains_key(key@) ==> {
            &&& final(counter).tracked_counts@ == old(counter).tracked_counts@.insert(
                key@,
                (spawned_so_far(*old(counter), key@) + 1) as i32,
            )
            &&& over_limit == (spawned_so_far(*old(counter), key@) + 1 > old(counter).max_counts@[key@])
        },
{
    // No limit on this key, nothing to count
    let max_count = match counter.max_counts.get(key) {
        Some(max_count) => *max_count,
        None => return false,
    };

    let tracked_count = match counter.tracked_counts.get(key) {
        Some(count) => *count + 1,
        None => 1,
    };
    counter.tracked_counts.insert(key.to_owned(), tracked_count);

    tracked_count > max_count
}


/// `list` holds the text `key`.
pub open spec fn holds(list: Seq<String>, key: Seq<char>) -> bool {
    exists|i: int| 0 <= i < list.len() && (#[trigger] list[i])@ == key
}

/// Whether `list` holds the text `key`.
pub(crate) fn list_holds(list: &[String], key: &str) -> (r: bool)
    ensures
        r == holds(list@, key@),
{
    let mut i: usize = 0;
    while i < list.len()
        invariant
            i <= list@.len(),
            forall|k: int| 0 <= k < i ==> (#[trigger] list@[k])@ != key@,
        decreases list@.len() - i,
    {
        if str_eq(list[i].as_str(), key) {
            return true;
        }
        i += 1;
    }
    false
}

/// Whether the static container with spawn point id `container_id` may spawn:
/// christmas containers only while the christmas event is on.
pub fn container_spawns_this_season(seasonal: &SeasonalView, container_id: &str) -> (r: bool)
    ensures
        r == (seasonal.christmas_event_enabled || !holds(seasonal.christmas_container_ids@, container_id@)),
{
    seasonal.christmas_event_enabled || !list_holds(&seasonal.christmas_container_ids, container_id)
}

/// The lowercase letters of `christmas`.
pub open spec fn christmas_lower() -> Seq<char> {
    seq!['c', 'h', 'r', 'i', 's', 't', 'm', 'a', 's']
}

/// The uppercase letters of `CHRISTMAS`.
pub open spec fn christmas_upper() -> Seq<char> {
    seq!['C', 'H', 'R', 'I', 'S', 'T', 'M', 'A', 'S']
}

/// `id` begins with `christmas`, each letter in either ASCII case.
pub open spec fn is_christmas_id(id: Seq<char>) -> bool {
    &&& id.len() >= 9
    &&& forall|i: int| 0 <= i < 9 ==> #[trigger] id[i] == christmas_lower()[i] || id[i] == christmas_upper()[i]
}

/// Whether the loose spawn point with template id `template_id` belongs to
/// the christmas event: its id begins with `christmas`, ignoring ASCII case.
pub fn is_christmas_spawn_point(template_id: &str) -> (r: bool)
    ensures
        r == is_christmas_id(template_id@),
{
    let lower = ['c', 'h', 'r', 'i', 's', 't', 'm', 'a', 's'];
    let upper = ['C', 'H', 'R', 'I', 'S', 'T', 'M', 'A', 'S'];
    assert(lower@ == christmas_lower());
    assert(upper@ == christmas_upper());
    let mut matched: usize = 0;
    let mut mismatch = false;
    for c in it: template_id.chars()
        invariant
            it.seq() == template_id@,
            lower@ == christmas_lower(),
            upper@ == christmas_upper(),
            matched <= 9,
            !mismatch ==> matched == if it.index() < 9 { it.index() } else { 9 },
            !mismatch ==> forall|i: int| 0 <= i < matched ==> #[trigger] template_id@[i] == christmas_lower()[i]
                || template_id@[i] == christmas_upper()[i],
            mismatch ==> !is_christmas_id(template_id@),
    {
        let ghost i = it.index() as int;
        assert(c == template_id@[i]);
        if !mismatch && matched < 9 {
            if c == lower[matched] || c == upper[matched] {
                matched += 1;
            } else {
                mismatch = true;
            }
        }
    }
    !mismatch && matched == 9
}

/// Whether a loose spawn point with template id `template_id` may spawn:
/// christmas spawn points only while the christmas event is on.
pub fn spawn_point_spawns_this_season(seasonal: &SeasonalView, template_id: &str) -> (r: bool)
    ensures
        r == (seasonal.christmas_event_enabled || !is_christmas_id(template_id@)),
{
    seasonal.christmas_event_enabled || !is_christmas_spawn_point(template_id)
}

/// Whether an item of template `tpl` may be loot: it is not on the lootable
/// blacklist, and seasonal items only while a seasonal event is running.
pub fn item_is_lootable(seasonal: &SeasonalView, lootable_item_blacklist: &[String], tpl: &str) -> (r: bool)
    ensures
        r == (!holds(lootable_item_blacklist@, tpl@)
            && (seasonal.seasonal_event_active || !holds(seasonal.inactive_seasonal_items@, tpl@))),
{
    if list_holds(lootable_item_blacklist, tpl) {
        return false;
    }
    seasonal.seasonal_event_active || !list_holds(&seasonal.inactive_seasonal_items, tpl)
}

/// The location id `ids[i]` turns up before position `i`.
pub open spec fn seen_before(ids: Seq<Option<String>>, i: int) -> bool {
    exists|j: int| 0 <= j < i && opt_view(#[trigger] ids[j]) == opt_view(ids[i])
}

/// Which of the chosen spawn points to keep: the first with each location id
/// (an absent id counting as one id of its own), so that no location gets
/// loot twice.
pub fn first_of_each_location(location_ids: &[Option<String>]) -> (keep: Vec<bool>)
    ensures
        keep@.len() == location_ids@.len(),
        forall|i: int| 0 <= i < keep@.len() ==> #[trigger] keep@[i] == !seen_before(location_ids@, i),
{
    let mut keep: Vec<bool> = Vec::new();
    let mut i: usize = 0;
    while i < location_ids.len()
        invariant
            i <= location_ids@.len(),
            keep@.len() == i,
            forall|k: int| 0 <= k < i ==> #[trigger] keep@[k] == !seen_before(location_ids@, k),
        decreases location_ids@.len() - i,
    {
        let mut seen = false;
        let mut j: usize = 0;
        while j < i
            invariant
                i < location_ids@.len(),
                j <= i,
                seen == exists|k: int| 0 <= k < j && opt_view(#[trigger] location_ids@[k]) == opt_view(location_ids@[i as int]),
            decreases i - j,
        {
            let same = match (&location_ids[j], &location_ids[i]) {
                (Some(a), Some(b)) => str_eq(a.as_str(), b.as_str()),
                (None, None) => true,
                _ => false,
            };
            if same {
                seen = true;
            }
            j += 1;
        }
        keep.push(!seen);
        i += 1;
    }
    keep
}


/// `slot` is what the slot search reports for an item of `w` x `h` in `g`:
/// the first position in row-major order where it fits either way round,
/// rotated when only the rotated way fits, or the default when none does.
pub open spec fn slot_search(g: Seq<Vec<u8>>, w: int, h: int, slot: FindSlotResult) -> bool {
    &&& slot.success == exists|r: int, c: int| candidate(g, w, h, r, c)
    &&& !slot.success ==> slot == no_slot()
    &&& slot.success ==> {
        &&& candidate(g, w, h, slot.y as int, slot.x as int)
        &&& forall|r: int, c: int| lex_lt(r, c, slot.y as int, slot.x as int) ==> !candidate(g, w, h, r, c)
        &&& slot.rotation == !fits(g, slot.y as int, slot.x as int, w, h)
    }
}

/// The usable size of an item: both dimensions known and positive.
pub open spec fn usable_size(size: Option<(i32, i32)>) -> bool {
    size matches Some((w, h)) && w > 0 && h > 0
}

/// The width of a known size (0 when unknown).
pub open spec fn size_width(size: Option<(i32, i32)>) -> int {
    match size {
        Some((w, _)) => w as int,
        None => 0,
    }
}

/// The height of a known size (0 when unknown).
pub open spec fn size_height(size: Option<(i32, i32)>) -> int {
    match size {
        Some((_, h)) => h as int,
        None => 0,
    }
}

/// Cell (`r`, `c`) lies under an item of `w` x `h` placed at `slot`.
pub open spec fn under_item(slot: FindSlotResult, w: int, h: int, r: int, c: int) -> bool {
    in_rect(slot.y as int, slot.x as int, placed_width(w, h, slot.rotation), placed_height(w, h, slot.rotation), r, c)
}

/// `after` holds the same cells as `before`.
pub open spec fn same_cells(before: Seq<Vec<u8>>, after: Seq<Vec<u8>>) -> bool {
    &&& same_shape(after, before)
    &&& forall|r: int, c: int| in_bounds(before, r, c) ==> #[trigger] cell(after, r, c) == cell(before, r, c)
}

/// `after` is `before` with the cells under an item of `w` x `h` at `slot`
/// taken.
pub open spec fn flagged(before: Seq<Vec<u8>>, after: Seq<Vec<u8>>, slot: FindSlotResult, w: int, h: int) -> bool {
    &&& same_shape(after, before)
    &&& forall|r: int, c: int| in_bounds(before, r, c) ==> #[trigger] cell(after, r, c)
        == if under_item(slot, w, h, r, c) { 1u8 } else { cell(before, r, c) }
}

/// One item's turn. `failed` counts the items that found no room so far, or is
/// negative once placing has given up. An item with a usable size that fits
/// is placed where the slot search puts it and its cells are taken; any other
/// item is skipped and counted, and once more than `attempts` have been
/// counted the next miss gives up, leaving every later item unplaced.
pub open spec fn placement_step(
    before: Seq<Vec<u8>>,
    after: Seq<Vec<u8>>,
    size: Option<(i32, i32)>,
    attempts: int,
    failed: int,
    failed_after: int,
    placed: Option<FindSlotResult>,
) -> bool {
    if failed < 0 {
        placed is None && failed_after == failed && same_cells(before, after)
    } else if usable_size(size) && exists|r: int, c: int| candidate(before, size_width(size), size_height(size), r, c) {
        let w = size_width(size);
        let h = size_height(size);
        &&& placed matches Some(slot) && slot_search(before, w, h, slot) && flagged(before, after, slot, w, h)
        &&& failed_after == failed
    } else {
        &&& placed is None
        &&& same_cells(before, after)
        &&& failed_after == if failed > attempts { -1 } else { failed + 1 }
    }
}

/// The grids and miss counts before and after each item's turn, in order,
/// starting from no misses.
pub open spec fn placement_trace(
    grids: Seq<Seq<Vec<u8>>>,
    failed: Seq<int>,
    sizes: Seq<Option<(i32, i32)>>,
    attempts: int,
    placed: Seq<Option<FindSlotResult>>,
) -> bool {
    &&& grids.len() == sizes.len() + 1
    &&& failed.len() == sizes.len() + 1
    &&& placed.len() == sizes.len()
    &&& failed[0] == 0
    &&& forall|i: int| 0 <= i < sizes.len() ==> #[trigger] placement_step(
        grids[i],
        grids[i + 1],
        sizes[i],
        attempts,
        failed[i],
        failed[i + 1],
        placed[i],
    )
}

/// The sizes the slot search can take on a grid of this shape.
pub open spec fn sizes_fit_search(g: Seq<Vec<u8>>, sizes: Seq<Option<(i32, i32)>>) -> bool {
    forall|i: int| 0 <= i < sizes.len() && #[trigger] usable_size(sizes[i]) ==> scan_sizes_ok(
        g,
        size_width(sizes[i]),
        size_height(sizes[i]),
    )
}

/// Taking the cells under a found slot keeps a grid rectangular and binary,
/// and the slot's cells were all free.
pub(crate) proof fn lemma_flag_keeps_grid(before: Seq<Vec<u8>>, after: Seq<Vec<u8>>, slot: FindSlotResult, w: int, h: int)
    requires
        rectangular(before),
        binary(before),
        1 <= w && 1 <= h,
        slot.success,
        slot_search(before, w, h, slot),
        flagged(before, after, slot, w, h),
    ensures
        rectangular(after),
        binary(after),
        forall|r: int, c: int| #[trigger] under_item(slot, w, h, r, c) ==> in_bounds(before, r, c) && cell(before, r, c) == 0,
{
    lemma_found_slot_can_be_filled(before, w, h, slot.y as int, slot.x as int);
    assert forall|r: int| 0 <= r < after.len() implies #[trigger] after[r]@.len() == cols(after) by {
        assert(after[r]@.len() == before[r]@.len());
        assert(before[r]@.len() == cols(before));
        assert(after[0]@.len() == before[0]@.len());
    }
    assert forall|r: int, c: int| in_bounds(after, r, c) implies #[trigger] cell(after, r, c) <= 1 by {
        assert(in_bounds(before, r, c));
    }
    assert forall|r: int, c: int| #[trigger] under_item(slot, w, h, r, c) implies in_bounds(before, r, c) && cell(before, r, c) == 0 by {
        assert(in_bounds(before, r, c));
    }
}

/// Places the items of a container's loot, one after the other, into
/// `grid`: each item with a usable size goes where the slot search puts it
/// and its cells are taken; an item without one, or that does not fit, is
/// skipped and counted, and a miss after more than `fit_attempts` counted
/// ones gives up on the rest. Returns where each item went.
pub fn place_items_in_container(
    grid: &mut Vec<Vec<u8>>,
    sizes: &[Option<(i32, i32)>],
    fit_attempts: i32,
) -> (placed: Vec<Option<FindSlotResult>>)
    requires
        rectangular(old(grid)@),
        binary(old(grid)@),
        sizes_fit_search(old(grid)@, sizes@),
        sizes@.len() < i32::MAX,
    ensures
        exists|grids: Seq<Seq<Vec<u8>>>, failed: Seq<int>| {
            &&& placement_trace(grids, failed, sizes@, fit_attempts as int, placed@)
            &&& grids[0] == old(grid)@
            &&& grids[sizes@.len() as int] == final(grid)@
        },
{
    let ghost start = grid@;
    let ghost mut grids: Seq<Seq<Vec<u8>>> = seq![grid@];
    let ghost mut fails: Seq<int> = seq![0int];
    let mut placed: Vec<Option<FindSlotResult>> = Vec::new();
    let mut failed: i32 = 0;
    let mut stopped = false;
    let mut i: usize = 0;
    while i < sizes.len()
        invariant
            i <= sizes@.len(),
            sizes@.len() < i32::MAX,
            grids.len() == i + 1,
            fails.len() == i + 1,
            placed@.len() == i,
            grids[0] == start,
            grids[i as int] == grid@,
            fails[0] == 0,
            fails[i as int] == if stopped { -1 } else { failed as int },
            0 <= failed <= i,
            rectangular(grid@),
            binary(grid@),
            same_shape(grid@, start),
            sizes_fit_search(start, sizes@),
            forall|k: int| 0 <= k < i ==> #[trigger] placement_step(
                grids[k],
                grids[k + 1],
                sizes@[k],
                fit_attempts as int,
                fails[k],
                fails[k + 1],
                placed@[k],
            ),
        decreases sizes@.len() - i,
    {
        let ghost before = grid@;
        if stopped {
            placed.push(None);
            proof {
                assert(same_cells(before, grid@));
            }
        } else {
            let usable = match sizes[i] {
                Some((w, h)) => w > 0 && h > 0,
                None => false,
            };
            let result = if usable {
                let (w, h) = sizes[i].unwrap();
                proof {
                    assert(usable_size(sizes@[i as int]));
                    assert(scan_sizes_ok(start, w as int, h as int));
                }
                find_slot_for_item(grid, w, h)
            } else {
                FindSlotResult::default()
            };
            if !result.success {
                placed.push(None);
                if failed > fit_attempts {
                    stopped = true;
                } else {
                    failed += 1;
                }
                proof {
                    assert(same_cells(before, grid@));
                }
            } else {
                let (w, h) = sizes[i].unwrap();
                proof {
                    assert(slot_search(before, w as int, h as int, result));
                    lemma_found_slot_can_be_filled(before, w as int, h as int, result.y as int, result.x as int);
                }
                try_fill_container_map_with_item(grid, result.x, result.y, w, h, result.rotation);
                proof {
                    assert forall|r: int, c: int| in_bounds(before, r, c) implies #[trigger] cell(grid@, r, c)
                        == if under_item(result, w as int, h as int, r, c) { 1u8 } else { cell(before, r, c) } by {
                    }
                    assert(flagged(before, grid@, result, w as int, h as int));
                    lemma_flag_keeps_grid(before, grid@, result, w as int, h as int);
                }
                placed.push(Some(result));
            }
        }
        proof {
            grids = grids.push(grid@);
            fails = fails.push(if stopped { -1 } else { failed as int });
            assert(placement_step(
                grids[i as int],
                grids[i + 1],
                sizes@[i as int],
                fit_attempts as int,
                fails[i as int],
                fails[i + 1],
                placed@[i as int],
            ));
        }
        i += 1;
    }
    proof {
        assert(placement_trace(grids, fails, sizes@, fit_attempts as int, placed@));
        assert(grids[0] == start && grids[sizes@.len() as int] == grid@);
    }
    placed
}


/// Up to any turn, the grid stays rectangular and binary with its shape, and
/// a cell free at that turn was free at the start.
proof fn lemma_trace_grids(
    grids: Seq<Seq<Vec<u8>>>,
    failed: Seq<int>,
    sizes: Seq<Option<(i32, i32)>>,
    attempts: int,
    placed: Seq<Option<FindSlotResult>>,
    k: int,
)
    requires
        placement_trace(grids, failed, sizes, attempts, placed),
        rectangular(grids[0]),
        binary(grids[0]),
        0 <= k <= sizes.len(),
    ensures
        rectangular(grids[k]),
        binary(grids[k]),
        same_shape(grids[k], grids[0]),
        forall|r: int, c: int| in_bounds(grids[0], r, c) && #[trigger] cell(grids[k], r, c) == 0 ==> cell(grids[0], r, c) == 0,
    decreases k,
{
    if k > 0 {
        let j = k - 1;
        lemma_trace_grids(grids, failed, sizes, attempts, placed, j);
        assert(placement_step(grids[j], grids[j + 1], sizes[j], attempts, failed[j], failed[j + 1], placed[j]));
        let before = grids[j];
        let after = grids[k];
        if placed[j] is Some {
            let slot = placed[j]->0;
            lemma_flag_keeps_grid(before, after, slot, size_width(sizes[j]), size_height(sizes[j]));
        } else {
            assert forall|r: int| 0 <= r < after.len() implies #[trigger] after[r]@.len() == cols(after) by {
                assert(after[r]@.len() == before[r]@.len());
                assert(after[0]@.len() == before[0]@.len());
            }
            assert forall|r: int, c: int| in_bounds(after, r, c) implies #[trigger] cell(after, r, c) <= 1 by {
                assert(in_bounds(before, r, c));
            }
        }
        assert forall|r: int, c: int| in_bounds(grids[0], r, c) && #[trigger] cell(grids[k], r, c) == 0 implies cell(grids[0], r, c) == 0 by {
            assert(in_bounds(before, r, c));
        }
    }
}

/// A cell taken at some turn stays taken at every later turn.
proof fn lemma_taken_stays_taken(
    grids: Seq<Seq<Vec<u8>>>,
    failed: Seq<int>,
    sizes: Seq<Option<(i32, i32)>>,
    attempts: int,
    placed: Seq<Option<FindSlotResult>>,
    from: int,
    k: int,
    r: int,
    c: int,
)
    requires
        placement_trace(grids, failed, sizes, attempts, placed),
        0 <= from <= k <= sizes.len(),
        in_bounds(grids[from], r, c),
        cell(grids[from], r, c) == 1,
    ensures
        in_bounds(grids[k], r, c),
        cell(grids[k], r, c) == 1,
    decreases k - from,
{
    if from < k {
        let j = k - 1;
        lemma_taken_stays_taken(grids, failed, sizes, attempts, placed, from, j, r, c);
        assert(placement_step(grids[j], grids[j + 1], sizes[j], attempts, failed[j], failed[j + 1], placed[j]));
    }
}

/// Loot placed in a container never overlaps: starting from a rectangular
/// grid of free and taken cells, every cell under a placed item lies inside
/// the grid and was free at the start, and no cell lies under two placed
/// items.
pub proof fn lemma_placed_items_do_not_overlap(
    grids: Seq<Seq<Vec<u8>>>,
    failed: Seq<int>,
    sizes: Seq<Option<(i32, i32)>>,
    attempts: int,
    placed: Seq<Option<FindSlotResult>>,
)
    requires
        placement_trace(grids, failed, sizes, attempts, placed),
        rectangular(grids[0]),
        binary(grids[0]),
    ensures
        forall|i: int, r: int, c: int|
            0 <= i < sizes.len() && placed[i] is Some && #[trigger] under_item(placed[i]->0, size_width(sizes[i]), size_height(sizes[i]), r, c)
                ==> in_bounds(grids[0], r, c) && cell(grids[0], r, c) == 0,
        forall|i: int, j: int, r: int, c: int|
            0 <= i < j < sizes.len() && placed[i] is Some && placed[j] is Some
                && #[trigger] under_item(placed[i]->0, size_width(sizes[i]), size_height(sizes[i]), r, c)
                ==> !#[trigger] under_item(placed[j]->0, size_width(sizes[j]), size_height(sizes[j]), r, c),
{
    assert forall|i: int, r: int, c: int|
        0 <= i < sizes.len() && placed[i] is Some && #[trigger] under_item(placed[i]->0, size_width(sizes[i]), size_height(sizes[i]), r, c)
        implies in_bounds(grids[0], r, c) && cell(grids[0], r, c) == 0 by {
        lemma_trace_grids(grids, failed, sizes, attempts, placed, i);
        assert(placement_step(grids[i], grids[i + 1], sizes[i], attempts, failed[i], failed[i + 1], placed[i]));
        lemma_flag_keeps_grid(grids[i], grids[i + 1], placed[i]->0, size_width(sizes[i]), size_height(sizes[i]));
        assert(in_bounds(grids[i], r, c));
    }
    assert forall|i: int, j: int, r: int, c: int|
        0 <= i < j < sizes.len() && placed[i] is Some && placed[j] is Some
            && #[trigger] under_item(placed[i]->0, size_width(sizes[i]), size_height(sizes[i]), r, c)
        implies !#[trigger] under_item(placed[j]->0, size_width(sizes[j]), size_height(sizes[j]), r, c) by {
        let si = placed[i]->0;
        let sj = placed[j]->0;
        lemma_trace_grids(grids, failed, sizes, attempts, placed, i);
        assert(placement_step(grids[i], grids[i + 1], sizes[i], attempts, failed[i], failed[i + 1], placed[i]));
        lemma_flag_keeps_grid(grids[i], grids[i + 1], si, size_width(sizes[i]), size_height(sizes[i]));
        assert(in_bounds(grids[i], r, c));
        assert(cell(grids[i + 1], r, c) == 1);
        lemma_taken_stays_taken(grids, failed, sizes, attempts, placed, i + 1, j, r, c);
        lemma_trace_grids(grids, failed, sizes, attempts, placed, j);
        assert(placement_step(grids[j], grids[j + 1], sizes[j], attempts, failed[j], failed[j + 1], placed[j]));
        lemma_flag_keeps_grid(grids[j], grids[j + 1], sj, size_width(sizes[j]), size_height(sizes[j]));
        if under_item(sj, size_width(sizes[j]), size_height(sizes[j]), r, c) {
            assert(cell(grids[j], r, c) == 0);
        }
    }
}


/// A template's optional count, 0 when absent.
pub open spec fn count_or_zero(n: Option<i32>) -> int {
    match n {
        Some(v) => v as int,
        None => 0,
    }
}

/// The stack size a spawned stack of money or ammunition of `template` gets:
/// 1 for a template that never stacks (maximum stack size 1), else a random
/// count between its random minimum and maximum (each 0 when absent), the
/// minimum when the maximum is not above it.
pub fn random_stack_count(template: &ItemView) -> (count: i32)
    ensures
        template.stack_max_size == Some(1i32) ==> count == 1,
        template.stack_max_size != Some(1i32) ==> {
            let lo = count_or_zero(template.stack_min_random);
            let hi = count_or_zero(template.stack_max_random);
            &&& hi > lo ==> lo <= count <= hi
            &&& hi <= lo ==> count == lo
        },
{
    if template.stack_max_size == Some(1) {
        1
    } else {
        let lo = match template.stack_min_random {
            Some(v) => v,
            None => 0,
        };
        let hi = match template.stack_max_random {
            Some(v) => v,
            None => 0,
        };
        get_int(lo, hi)
    }
}


/// What the container split reads of a static container: its spawn point
/// id, whether its spawn probability is exactly 1 (the caller compares the
/// probability), whether its template is marked always-spawn, and the
/// template of its container item, if it has one.
pub struct ContainerFacts {
    pub id: String,
    pub certain: bool,
    pub always_spawn: bool,
    pub first_item_tpl: Option<String>,
}

/// A container always spawns: its probability is exactly 1, it is marked
/// always-spawn, or its container type is never randomised.
pub open spec fn guaranteed(facts: ContainerFacts, never_randomised: Seq<String>) -> bool {
    facts.certain || facts.always_spawn || (facts.first_item_tpl matches Some(t) && holds(never_randomised, t@))
}

/// Whether a static container always spawns, rather than being left to its
/// group's draw: a probability of exactly 1, the always-spawn mark, or a
/// container type that is never randomised. The guaranteed containers and
/// the randomisable ones are exact complements.
pub fn is_guaranteed_container(facts: &ContainerFacts, never_randomised: &[String]) -> (r: bool)
    ensures
        r == guaranteed(*facts, never_randomised@),
{
    if facts.certain || facts.always_spawn {
        return true;
    }
    match &facts.first_item_tpl {
        Some(tpl) => list_holds(never_randomised, tpl.as_str()),
        None => false,
    }
}

/// `picked` lists, in increasing order, exactly the positions `i` below
/// `len` for which `keep(i)` holds.
pub open spec fn picks(picked: Seq<usize>, len: int, keep: spec_fn(int) -> bool) -> bool {
    &&& forall|k: int| 0 <= k < picked.len() ==> (#[trigger] picked[k]) < len && keep(picked[k] as int)
    &&& forall|k: int, l: int| 0 <= k < l < picked.len() ==> (#[trigger] picked[k]) < (#[trigger] picked[l])
    &&& forall|i: int| 0 <= i < len && #[trigger] keep(i) ==> exists|k: int| 0 <= k < picked.len() && picked[k] == i
}

/// Splits the static containers of a map into the guaranteed ones and the
/// randomisable ones, each as positions in `containers`, in order.
pub fn split_containers(containers: &[ContainerFacts], never_randomised: &[String]) -> (r: (Vec<usize>, Vec<usize>))
    ensures
        picks(r.0@, containers@.len() as int, |i: int| guaranteed(containers@[i], never_randomised@)),
        picks(r.1@, containers@.len() as int, |i: int| !guaranteed(containers@[i], never_randomised@)),
{
    let ghost keep_g = |i: int| guaranteed(containers@[i], never_randomised@);
    let ghost keep_r = |i: int| !guaranteed(containers@[i], never_randomised@);
    let mut sure: Vec<usize> = Vec::new();
    let mut random: Vec<usize> = Vec::new();
    let mut i: usize = 0;
    while i < containers.len()
        invariant
            i <= containers@.len(),
            keep_g == (|i: int| guaranteed(containers@[i], never_randomised@)),
            keep_r == (|i: int| !guaranteed(containers@[i], never_randomised@)),
            picks(sure@, i as int, keep_g),
            picks(random@, i as int, keep_r),
        decreases containers@.len() - i,
    {
        let ghost before_sure = sure@;
        let ghost before_random = random@;
        if is_guaranteed_container(&containers[i], never_randomised) {
            sure.push(i);
        } else {
            random.push(i);
        }
        proof {
            assert forall|j: int| 0 <= j < i + 1 && #[trigger] keep_g(j) implies exists|k: int| 0 <= k < sure@.len() && sure@[k] == j by {
                if j == i {
                    assert(sure@[sure@.len() - 1] == j);
                } else {
                    let k = choose|k: int| 0 <= k < before_sure.len() && before_sure[k] == j;
                    assert(sure@[k] == j);
                }
            }
            assert forall|j: int| 0 <= j < i + 1 && #[trigger] keep_r(j) implies exists|k: int| 0 <= k < random@.len() && random@[k] == j by {
                if j == i {
                    assert(random@[random@.len() - 1] == j);
                } else {
                    let k = choose|k: int| 0 <= k < before_random.len() && before_random[k] == j;
                    assert(random@[k] == j);
                }
            }
        }
        i += 1;
    }
    (sure, random)
}

/// The containers a group gets: all of its pool when it wants more than the
/// pool holds (`None`), else `Some(k)`, a draw of `k` from the pool by
/// weight, with replacement, which the caller makes.
pub fn containers_to_draw(chosen_count: i32, pool_size: usize) -> (r: Option<usize>)
    ensures
        chosen_count > pool_size ==> r is None,
        chosen_count <= pool_size ==> r == Some(if chosen_count < 0 { 0usize } else { chosen_count as usize }),
{
    if chosen_count < 0 {
        Some(0)
    } else if chosen_count as usize > pool_size {
        None
    } else {
        Some(chosen_count as usize)
    }
}


/// The group a randomisable container joins, by its spawn point id: the group
/// the statics give it (the unnamed group `""` when they give none); none when
/// the statics do not know the container, or its spawn probability is 1 or
/// more (`certain`), which makes it no random pick.
pub open spec fn joins_group(
    container: (String, bool),
    group_of: Option<Map<Seq<char>, Option<String>>>,
) -> Option<Seq<char>> {
    match group_of {
        Some(m) => if m.contains_key(container.0@) && !container.1 {
            match m[container.0@] {
                Some(g) => Some(g@),
                None => Some(Seq::empty()),
            }
        } else {
            None
        },
        None => None,
    }
}

/// The (group, container) pairs of the first `n` containers, each pair once,
/// in the order they first turn up.
pub open spec fn member_pairs(
    containers: Seq<(String, bool)>,
    group_of: Option<Map<Seq<char>, Option<String>>>,
    n: int,
) -> Seq<(Seq<char>, Seq<char>)>
    decreases n,
{
    if n <= 0 {
        Seq::empty()
    } else {
        let prev = member_pairs(containers, group_of, n - 1);
        match joins_group(containers[n - 1], group_of) {
            Some(g) => if prev.contains((g, containers[n - 1].0@)) {
                prev
            } else {
                prev.push((g, containers[n - 1].0@))
            },
            None => prev,
        }
    }
}

/// The note the grouping leaves for a container: an error when the statics
/// do not know it, a debug line when it is certain to spawn, none otherwise.
pub open spec fn grouping_note(
    container: (String, bool),
    group_of: Option<Map<Seq<char>, Option<String>>>,
) -> Option<(NoteLevel, Option<Seq<char>>, Option<Seq<char>>, Seq<(Seq<char>, Option<Seq<char>>)>)> {
    match group_of {
        Some(m) => if !m.contains_key(container.0@) {
            Some(statics_miss_note(container.0@))
        } else if container.1 {
            let g = match m[container.0@] {
                Some(g) => g@,
                None => Seq::empty(),
            };
            Some((NoteLevel::Debug, Some("Container "@ + container.0@ + " with group: "@ + g
                + " had 100 % chance to spawn was picked as random container, skipping"@), None, Seq::empty()))
        } else {
            None
        },
        None => Some(statics_miss_note(container.0@)),
    }
}

/// The error note for a container the statics do not know.
pub open spec fn statics_miss_note(id: Seq<char>) -> (NoteLevel, Option<Seq<char>>, Option<Seq<char>>, Seq<(Seq<char>, Option<Seq<char>>)>) {
    (NoteLevel::Error, None, Some("location-unable_to_find_container_in_statics_json"@), seq![(Seq::<char>::empty(), Some(id))])
}

/// The notes the grouping leaves for the first `n` containers, in order.
pub open spec fn grouping_notes(
    containers: Seq<(String, bool)>,
    group_of: Option<Map<Seq<char>, Option<String>>>,
    n: int,
) -> Seq<(NoteLevel, Option<Seq<char>>, Option<Seq<char>>, Seq<(Seq<char>, Option<Seq<char>>)>)>
    decreases n,
{
    if n <= 0 {
        Seq::empty()
    } else {
        let prev = grouping_notes(containers, group_of, n - 1);
        match grouping_note(containers[n - 1], group_of) {
            Some(x) => prev.push(x),
            None => prev,
        }
    }
}

/// Container `idx` is the first of the containers that joins group `g` under
/// the id `id`.
pub open spec fn first_to_join(
    containers: Seq<(String, bool)>,
    group_of: Option<Map<Seq<char>, Option<String>>>,
    g: Seq<char>,
    id: Seq<char>,
    idx: int,
) -> bool {
    &&& 0 <= idx < containers.len()
    &&& containers[idx].0@ == id
    &&& joins_group(containers[idx], group_of) == Some(g)
    &&& forall|j: int| 0 <= j < idx ==> !((#[trigger] containers[j]).0@ == id && joins_group(containers[j], group_of) == Some(g))
}

/// Every container among the first `n` that joins a group has its pair among
/// the first `n` containers' pairs.
proof fn lemma_member_pairs_cover(
    containers: Seq<(String, bool)>,
    group_of: Option<Map<Seq<char>, Option<String>>>,
    n: int,
)
    requires
        0 <= n <= containers.len(),
    ensures
        forall|j: int| 0 <= j < n && (#[trigger] joins_group(containers[j], group_of)) is Some
            ==> member_pairs(containers, group_of, n).contains((joins_group(containers[j], group_of)->0, containers[j].0@)),
    decreases n,
{
    if n > 0 {
        lemma_member_pairs_cover(containers, group_of, n - 1);
        let prev = member_pairs(containers, group_of, n - 1);
        let cur = member_pairs(containers, group_of, n);
        assert forall|j: int| 0 <= j < n && (#[trigger] joins_group(containers[j], group_of)) is Some
            implies cur.contains((joins_group(containers[j], group_of)->0, containers[j].0@)) by {
            let pair = (joins_group(containers[j], group_of)->0, containers[j].0@);
            if j < n - 1 {
                let t = choose|t: int| 0 <= t < prev.len() && prev[t] == pair;
                if cur != prev {
                    assert(cur[t] == prev[t]);
                }
            } else {
                if cur != prev {
                    assert(cur[cur.len() - 1] == pair);
                }
            }
        }
    }
}

/// `g` is one of the declared groups.
pub open spec fn declared_group(groups: Seq<(String, i32, i32)>, g: Seq<char>) -> bool {
    exists|i: int| 0 <= i < groups.len() && (#[trigger] groups[i]).0@ == g
}

/// The view of a map from group ids to the group's container ids, optional.
pub open spec fn group_view(group_of: &Option<StringMap<Option<String>>>) -> Option<Map<Seq<char>, Option<String>>> {
    match group_of {
        Some(m) => Some(m@),
        None => None,
    }
}

/// How many containers each group spawns, and which containers each group
/// draws them from: a group, a container id, and the position in the
/// containers handed in of the first container that joined under that id
/// (whose spawn probability the group draws with).
pub struct GroupMappings {
    pub counts: StringMap<i32>,
    pub members: Vec<(String, String, usize)>,
}

/// Groups the randomisable containers of a map for the draw. Every declared
/// group (given with its bounds already scaled and rounded) gets a random
/// count between its bounds (`get_int`); the unnamed group `""`, for
/// containers the statics give no group, gets -1; a group only the containers
/// name gets 0. Each container the statics know, with a spawn probability
/// below 1, joins its group once, with the first container that joins under
/// its id. A container the statics do not know leaves an error note, and one
/// certain to spawn a debug note.
pub fn get_group_id_to_container_mappings(
    groups: &[(String, i32, i32)],
    containers: &[(String, bool)],
    group_of: &Option<StringMap<Option<String>>>,
    notes: &mut Vec<Note>,
) -> (r: GroupMappings)
    requires
        forall|i: int, j: int| 0 <= i < j < groups@.len() ==> (#[trigger] groups@[i]).0@ != (#[trigger] groups@[j]).0@,
    ensures
        notes_view(final(notes)@) == notes_view(old(notes)@) + grouping_notes(containers@, group_view(group_of), containers@.len() as int),
        forall|k: int| 0 <= k < r.members@.len() ==> first_to_join(containers@, group_view(group_of),
            (#[trigger] r.members@[k]).0@, r.members@[k].1@, r.members@[k].2 as int),
        r.members@.len() == member_pairs(containers@, group_view(group_of), containers@.len() as int).len(),
        forall|k: int| 0 <= k < r.members@.len() ==> ((#[trigger] r.members@[k]).0@, r.members@[k].1@)
            == member_pairs(containers@, group_view(group_of), containers@.len() as int)[k],
        forall|g: Seq<char>| #[trigger] r.counts@.contains_key(g) <==> (g == Seq::<char>::empty() || declared_group(groups@, g)
            || exists|k: int| 0 <= k < r.members@.len() && r.members@[k].0@ == g),
        r.counts@.contains_key(Seq::<char>::empty()) && r.counts@[Seq::<char>::empty()] == -1,
        forall|i: int| 0 <= i < groups@.len() && (#[trigger] groups@[i]).0@ != Seq::<char>::empty() ==> {
            let (lo, hi) = (groups@[i].1, groups@[i].2);
            let c = r.counts@[groups@[i].0@];
            &&& hi > lo ==> lo <= c <= hi
            &&& hi <= lo ==> c == lo
        },
        forall|g: Seq<char>| #[trigger] r.counts@.contains_key(g) && g != Seq::<char>::empty() && !declared_group(groups@, g)
            ==> r.counts@[g] == 0,
{
    let mut counts: StringMap<i32> = StringMap::new();
    let mut i: usize = 0;
    while i < groups.len()
        invariant
            i <= groups@.len(),
            forall|a: int, b: int| 0 <= a < b < groups@.len() ==> (#[trigger] groups@[a]).0@ != (#[trigger] groups@[b]).0@,
            forall|g: Seq<char>| #[trigger] counts@.contains_key(g) <==> exists|k: int| 0 <= k < i && (#[trigger] groups@[k]).0@ == g,
            forall|k: int| 0 <= k < i ==> {
                let (lo, hi) = ((#[trigger] groups@[k]).1, groups@[k].2);
                let c = counts@[groups@[k].0@];
                &&& hi > lo ==> lo <= c <= hi
                &&& hi <= lo ==> c == lo
            },
        decreases groups@.len() - i,
    {
        let chosen = get_int(groups[i].1, groups[i].2);
        counts.insert(groups[i].0.clone(), chosen);
        proof {
            assert forall|k: int| 0 <= k < i + 1 implies {
                let (lo, hi) = ((#[trigger] groups@[k]).1, groups@[k].2);
                let c = counts@[groups@[k].0@];
                &&& hi > lo ==> lo <= c <= hi
                &&& hi <= lo ==> c == lo
            } by {
                if k < i {
                    assert(groups@[k].0@ != groups@[i as int].0@);
                }
            }
            assert forall|g: Seq<char>| #[trigger] counts@.contains_key(g) implies exists|k: int| 0 <= k < i + 1 && (#[trigger] groups@[k]).0@ == g by {
                if g != groups@[i as int].0@ {
                    let k = choose|k: int| 0 <= k < i && (#[trigger] groups@[k]).0@ == g;
                }
            }
        }
        i += 1;
    }

    // Containers without a group, with a chance below 100%, go here.
    counts.insert(String::new(), -1);

    let ghost gv = group_view(group_of);
    let ghost notes0 = notes_view(notes@);
    let mut members: Vec<(String, String, usize)> = Vec::new();
    let mut j: usize = 0;
    while j < containers.len()
        invariant
            j <= containers@.len(),
            gv == group_view(group_of),
            notes_view(notes@) == notes0 + grouping_notes(containers@, gv, j as int),
            forall|k: int| 0 <= k < members@.len() ==> (#[trigger] members@[k]).2 < j
                && first_to_join(containers@, gv, members@[k].0@, members@[k].1@, members@[k].2 as int),
            members@.len() == member_pairs(containers@, gv, j as int).len(),
            forall|k: int| 0 <= k < members@.len() ==> ((#[trigger] members@[k]).0@, members@[k].1@)
                == member_pairs(containers@, gv, j as int)[k],
            forall|g: Seq<char>| #[trigger] counts@.contains_key(g) <==> (g == Seq::<char>::empty() || declared_group(groups@, g)
                || exists|k: int| 0 <= k < members@.len() && members@[k].0@ == g),
            counts@.contains_key(Seq::<char>::empty()) && counts@[Seq::<char>::empty()] == -1,
            forall|k: int| 0 <= k < groups@.len() && (#[trigger] groups@[k]).0@ != Seq::<char>::empty() ==> {
                let (lo, hi) = (groups@[k].1, groups@[k].2);
                let c = counts@[groups@[k].0@];
                &&& hi > lo ==> lo <= c <= hi
                &&& hi <= lo ==> c == lo
            },
            forall|g: Seq<char>| #[trigger] counts@.contains_key(g) && g != Seq::<char>::empty() && !declared_group(groups@, g)
                ==> counts@[g] == 0,
        decreases containers@.len() - j,
    {
        let container_id = &containers[j].0;
        let ghost notes_before = notes@;
        let group: Option<String> = match group_of {
            Some(map) => match map.get(container_id.as_str()) {
                Some(entry) => if containers[j].1 {
                    let named: &str = match entry {
                        Some(g) => g.as_str(),
                        None => "",
                    };
                    let m = concat("Container ", container_id.as_str());
                    let m = concat(m.as_str(), " with group: ");
                    let m = concat(m.as_str(), named);
                    let m = concat(m.as_str(), " had 100 % chance to spawn was picked as random container, skipping");
                    notes.push(plain(NoteLevel::Debug, m));
                    proof {
                        reveal_strlit("");
                    }
                    None
                } else {
                    match entry {
                        Some(g) => Some(g.clone()),
                        None => Some(String::new()),
                    }
                },
                None => {
                    notes.push(statics_miss(container_id.as_str()));
                    None
                },
            },
            None => {
                notes.push(statics_miss(container_id.as_str()));
                None
            },
        };
        proof {
            let nv = notes_view(notes@);
            let pv = notes_view(notes_before);
            match grouping_note(containers@[j as int], gv) {
                Some(x) => {
                    assert(notes@ == notes_before.push(notes@.last()));
                    assert(note_view(notes@.last()) == x);
                    assert(nv =~= pv.push(x));
                },
                None => {
                    assert(notes@ == notes_before);
                },
            }
            assert(grouping_notes(containers@, gv, j + 1) == match grouping_note(containers@[j as int], gv) {
                Some(x) => grouping_notes(containers@, gv, j as int).push(x),
                None => grouping_notes(containers@, gv, j as int),
            });
            assert(nv =~= notes0 + grouping_notes(containers@, gv, j + 1));
        }
        proof {
            assert(match group {
                Some(g) => joins_group(containers@[j as int], gv) == Some(g@),
                None => joins_group(containers@[j as int], gv) is None,
            });
        }
        let ghost prev = member_pairs(containers@, gv, j as int);
        assert(member_pairs(containers@, gv, j + 1) == match joins_group(containers@[j as int], gv) {
            Some(g) => if prev.contains((g, containers@[j as int].0@)) { prev } else { prev.push((g, containers@[j as int].0@)) },
            None => prev,
        });
        match group {
            Some(g) => {
                let mut seen = false;
                let mut k: usize = 0;
                while k < members.len()
                    invariant
                        k <= members@.len(),
                        members@.len() == prev.len(),
                        forall|t: int| 0 <= t < members@.len() ==> ((#[trigger] members@[t]).0@, members@[t].1@) == prev[t],
                        seen == exists|t: int| 0 <= t < k && prev[t] == (g@, container_id@),
                    decreases members@.len() - k,
                {
                    if str_eq(members[k].0.as_str(), g.as_str()) && str_eq(members[k].1.as_str(), container_id.as_str()) {
                        seen = true;
                    }
                    proof {
                        assert(((members@[k as int]).0@, members@[k as int].1@) == prev[k as int]);
                    }
                    k += 1;
                }
                proof {
                    if seen {
                        let t = choose|t: int| 0 <= t < k && prev[t] == (g@, container_id@);
                        assert(prev.contains((g@, container_id@)));
                    } else {
                        assert forall|t: int| 0 <= t < prev.len() implies prev[t] != (g@, container_id@) by {}
                        assert(!prev.contains((g@, container_id@)));
                    }
                }
                if !seen {
                    if counts.get(g.as_str()).is_none() {
                        counts.insert(g.clone(), 0);
                    }
                    let ghost before = members@;
                    members.push((g, container_id.clone(), j));
                    proof {
                        lemma_member_pairs_cover(containers@, gv, j as int);
                        assert forall|t: int| 0 <= t < members@.len() implies (#[trigger] members@[t]).2 < j + 1
                            && first_to_join(containers@, gv, members@[t].0@, members@[t].1@, members@[t].2 as int) by {
                            if t < before.len() {
                                assert(members@[t] == before[t]);
                            } else {
                                assert forall|x: int| 0 <= x < j implies !((#[trigger] containers@[x]).0@ == container_id@
                                    && joins_group(containers@[x], gv) == Some(g@)) by {
                                    if containers@[x].0@ == container_id@ && joins_group(containers@[x], gv) == Some(g@) {
                                        assert(prev.contains((g@, container_id@)));
                                    }
                                }
                            }
                        }
                        assert forall|t: int| 0 <= t < members@.len() implies ((#[trigger] members@[t]).0@, members@[t].1@)
                            == member_pairs(containers@, gv, j + 1)[t] by {
                            if t < before.len() {
                                assert(members@[t] == before[t]);
                            }
                        }
                        let n = members@.len() - 1;
                        assert(members@[n].0@ == joins_group(containers@[j as int], gv)->0);
                        assert forall|x: Seq<char>| #[trigger] counts@.contains_key(x) <==> (x == Seq::<char>::empty() || declared_group(groups@, x)
                            || exists|t: int| 0 <= t < members@.len() && members@[t].0@ == x) by {
                            if exists|t: int| 0 <= t < before.len() && before[t].0@ == x {
                                let t = choose|t: int| 0 <= t < before.len() && before[t].0@ == x;
                                assert(members@[t] == before[t]);
                            }
                            if exists|t: int| 0 <= t < members@.len() && members@[t].0@ == x {
                                let t = choose|t: int| 0 <= t < members@.len() && members@[t].0@ == x;
                                if t < before.len() {
                                    assert(members@[t] == before[t]);
                                }
                            }
                        }
                    }
                }
            },
            None => {},
        }
        j += 1;
    }
    let ghost cv = counts@;
    let ghost mv = members@;
    assert forall|g: Seq<char>| #[trigger] cv.contains_key(g) <==> (g == Seq::<char>::empty() || declared_group(groups@, g)
        || exists|k: int| 0 <= k < mv.len() && mv[k].0@ == g) by {
        assert(counts@.contains_key(g) <==> (g == Seq::<char>::empty() || declared_group(groups@, g)
            || exists|k: int| 0 <= k < members@.len() && members@[k].0@ == g));
    }
    let r = GroupMappings { counts, members };
    assert(r.counts@ == cv && r.members@ == mv);
    r
}


/// The error note for a container the statics do not know.
fn statics_miss(id: &str) -> (n: Note)
    ensures
        note_view(n) == statics_miss_note(id@),
{
    let mut args: Vec<(String, Option<String>)> = Vec::new();
    args.push((String::new(), Some(id.to_owned())));
    let n = Note {
        level: NoteLevel::Error,
        message: None,
        locale_key: Some("location-unable_to_find_container_in_statics_json".to_owned()),
        args,
    };
    assert(note_view(n).3 =~= seq![(Seq::<char>::empty(), Some(id@))]);
    n
}

/// The spawn count a map of counts holds for `key` (0 when none).
pub open spec fn count_in(m: Map<Seq<char>, i32>, key: Seq<char>) -> int {
    if m.contains_key(key) { m[key] as int } else { 0 }
}

/// The spawn counts after the first `n` forced points were counted: each
/// point whose item template has a limit counts one more of it.
pub open spec fn counts_after(
    counted: Map<Seq<char>, i32>,
    limits: Map<Seq<char>, i32>,
    tpls: Seq<Option<String>>,
    n: int,
) -> Map<Seq<char>, i32>
    decreases n,
{
    if n <= 0 {
        counted
    } else {
        let prev = counts_after(counted, limits, tpls, n - 1);
        match tpls[n - 1] {
            Some(t) => if limits.contains_key(t@) {
                prev.insert(t@, (count_in(prev, t@) + 1) as i32)
            } else {
                prev
            },
            None => prev,
        }
    }
}

/// Forced point `i`, whose item has template `tpl`, goes on to be built:
/// counting it does not take the template over its limit, and a seasonal
/// item only while a seasonal event is running.
pub open spec fn forced_point_kept(
    counter: CounterState,
    seasonal: SeasonalView,
    tpls: Seq<Option<String>>,
    i: int,
) -> bool {
    match tpls[i] {
        Some(t) => {
            let before = counts_after(counter.tracked_counts@, counter.max_counts@, tpls, i);
            &&& !(counter.max_counts@.contains_key(t@) && count_in(before, t@) + 1 > counter.max_counts@[t@])
            &&& (seasonal.seasonal_event_active || !holds(seasonal.inactive_seasonal_items@, t@))
        },
        None => false,
    }
}

/// Decides which forced loot points are built, one after the other. `tpls`
/// holds, for each point, the template of its first item (`None` when the
/// point has no template or no items, and is skipped). Each other point is
/// counted against its template's spawn limit first, and skipped when that
/// takes it over; then a seasonal item is skipped outside a seasonal event,
/// its count spent all the same.
pub fn forced_points_to_build(
    counter: &mut CounterState,
    seasonal: &SeasonalView,
    tpls: &[Option<String>],
) -> (keep: Vec<bool>)
    requires
        forall|i: int| 0 <= i < tpls@.len() && (#[trigger] tpls@[i]) is Some && old(counter).max_counts@.contains_key(tpls@[i]->0@)
            ==> count_in(counts_after(old(counter).tracked_counts@, old(counter).max_counts@, tpls@, i), tpls@[i]->0@) < i32::MAX,
    ensures
        keep@.len() == tpls@.len(),
        forall|i: int| 0 <= i < keep@.len() ==> #[trigger] keep@[i] == forced_point_kept(*old(counter), *seasonal, tpls@, i),
        final(counter).max_counts@ == old(counter).max_counts@,
        final(counter).tracked_counts@ == counts_after(old(counter).tracked_counts@, old(counter).max_counts@, tpls@, tpls@.len() as int),
{
    let ghost start = *counter;
    let mut keep: Vec<bool> = Vec::new();
    let mut i: usize = 0;
    while i < tpls.len()
        invariant
            i <= tpls@.len(),
            keep@.len() == i,
            counter.max_counts@ == start.max_counts@,
            counter.tracked_counts@ == counts_after(start.tracked_counts@, start.max_counts@, tpls@, i as int),
            forall|j: int| 0 <= j < tpls@.len() && (#[trigger] tpls@[j]) is Some && start.max_counts@.contains_key(tpls@[j]->0@)
                ==> count_in(counts_after(start.tracked_counts@, start.max_counts@, tpls@, j), tpls@[j]->0@) < i32::MAX,
            forall|k: int| 0 <= k < i ==> #[trigger] keep@[k] == forced_point_kept(start, *seasonal, tpls@, k),
        decreases tpls@.len() - i,
    {
        match &tpls[i] {
            Some(tpl) => {
                proof {
                    assert(tpls@[i as int] is Some);
                    assert(spawned_so_far(*counter, tpl@) == count_in(counter.tracked_counts@, tpl@));
                }
                let over = increment_count(counter, tpl.as_str());
                let lootable = seasonal.seasonal_event_active || !list_holds(&seasonal.inactive_seasonal_items, tpl.as_str());
                keep.push(!over && lootable);
                proof {
                    assert(keep@[i as int] == forced_point_kept(start, *seasonal, tpls@, i as int));
                    assert(counter.tracked_counts@ =~= counts_after(start.tracked_counts@, start.max_counts@, tpls@, i + 1));
                }
            },
            None => {
                keep.push(false);
            },
        }
        i += 1;
    }
    keep
}



/// Why loot could not be generated.
pub struct LootError {
    pub message: String,
}

/// Item `k` sits in the magazine slot.
pub open spec fn in_magazine_slot(items: Seq<Item>, k: int) -> bool {
    opt_view(items[k].slot_id) == Some("mod_magazine"@)
}

/// The first item in the magazine slot, if any.
fn magazine_position(items: &Vec<Item>) -> (r: Option<usize>)
    ensures
        match r {
            Some(k) => k < items@.len() && in_magazine_slot(items@, k as int)
                && forall|j: int| 0 <= j < k ==> !#[trigger] in_magazine_slot(items@, j),
            None => forall|j: int| 0 <= j < items@.len() ==> !#[trigger] in_magazine_slot(items@, j),
        },
{
    let mut k: usize = 0;
    while k < items.len()
        invariant
            k <= items@.len(),
            forall|j: int| 0 <= j < k ==> !#[trigger] in_magazine_slot(items@, j),
        decreases items@.len() - k,
    {
        let here = match &items[k].slot_id {
            Some(slot) => str_eq(slot.as_str(), "mod_magazine"),
            None => false,
        };
        if here {
            return Some(k);
        }
        k += 1;
    }
    None
}

/// `fin` is `grafted` with its first item in the magazine slot, if any,
/// moved to the end; `mag` is where that item ends up.
pub open spec fn magazine_moved(grafted: Seq<Item>, fin: Seq<Item>, mag: Option<usize>) -> bool {
    match mag {
        Some(k) => exists|j: int| {
            &&& 0 <= j < grafted.len()
            &&& in_magazine_slot(grafted, j)
            &&& forall|i: int| 0 <= i < j ==> !#[trigger] in_magazine_slot(grafted, i)
            &&& fin == grafted.remove(j).push(grafted[j])
            &&& k == fin.len() - 1
        },
        None => {
            &&& forall|i: int| 0 <= i < grafted.len() ==> !#[trigger] in_magazine_slot(grafted, i)
            &&& fin == grafted
        },
    }
}

/// `id` is one of the first `n` ids a generator in state `g` hands out.
pub open spec fn minted_by(g: MongoIdGenerator, n: nat, id: Seq<char>) -> bool {
    exists|i: nat| i < n && #[trigger] nth_id(g, id, i)
}

/// The `i`-th id after `a` ids is the `a + i`-th.
proof fn lemma_nth_id_after(g: MongoIdGenerator, a: nat, id: Seq<char>, i: nat)
    requires
        nth_id(advanced(g, a), id, i),
    ensures
        nth_id(g, id, a + i),
{
    lemma_advance_adds(g.counter, a, i);
    let h = advanced(g, a);
    let ts = choose|ts: u32| id == #[trigger] id_text(ts, h.machine, h.process_id, advance(h.counter, i));
    assert(id == id_text(ts, g.machine, g.process_id, advance(g.counter, a + i)));
}

/// Builds a weapon from its default preset: the preset's tree is re-ided
/// under its own root, then moved under the weapon's root item (the first of
/// `items`), and becomes `items`; every item after the root then carries an
/// id handed out during the call. A weapon without a preset keeps `items` as
/// they are, and a debug note says so. The first item in the magazine slot,
/// if any, is then moved to the end of the list; filling it with cartridges
/// is not done here. Returns the root item and where the magazine sits. An
/// empty preset, or no root item, is an error with its note, and `items` stay
/// as they are.
pub fn create_weapon_root_and_children(
    preset: Option<&[Item]>,
    chosen_tpl: &str,
    parent_id: Option<&str>,
    items: &mut Vec<Item>,
    ids: &mut MongoIdGenerator,
    notes: &mut Vec<Note>,
) -> (r: Result<(Item, Option<usize>), LootError>)
    ensures
        (preset is None || (preset matches Some(p) && p@.len() == 0)) ==> *final(ids) == *old(ids),
        exists|n: nat| *final(ids) == advanced(*old(ids), n),
        (preset matches Some(p) && p@.len() == 0) ==> {
            &&& r matches Err(e) && e.message@ == "preset not found for "@ + chosen_tpl@ + ", parentId: "@
                + match parent_id { Some(p) => p@, None => Seq::<char>::empty() }
            &&& final(items)@ == old(items)@
            &&& notes_added(old(notes)@, final(notes)@, 1)
            &&& keyed_note(final(notes)@.last(), NoteLevel::Error, "location-preset_not_found"@,
                seq![("tpl"@, Some(chosen_tpl@)), ("defaultId"@, None), ("defaultName"@, None), ("parentId"@, opt_str(parent_id))])
        },
        preset is None ==> notes_added(old(notes)@, final(notes)@, if old(items)@.len() == 0 { 2 } else { 1 }) && plain_note(final(notes)@[old(notes)@.len() as int],
            NoteLevel::Debug, "createStaticLootItem() No preset found for weapon: "@ + chosen_tpl@),
        !(preset matches Some(p) && p@.len() == 0) && old(items)@.len() == 0 ==> {
            &&& r matches Err(e) && e.message@ == "A critical error occurred when generating loot, see server log for details"@
            &&& final(items)@ == old(items)@
            &&& notes_added(old(notes)@, final(notes)@, if preset is None { 2 } else { 1 })
            &&& keyed_note(final(notes)@.last(), NoteLevel::Error, "location-missing_root_item"@,
                seq![("tpl"@, Some(chosen_tpl@)), ("parentId"@, opt_str(parent_id))])
        },
        !(preset matches Some(p) && p@.len() == 0) && old(items)@.len() > 0 ==> (r matches Ok((root, mag)) && {
            &&& root == old(items)@[0]
            &&& notes_added(old(notes)@, final(notes)@, if preset is None { 1 } else { 0 })
            &&& exists|grafted: Seq<Item>, n: nat| {
                &&& *final(ids) == advanced(*old(ids), n)
                &&& magazine_moved(grafted, final(items)@, mag)
                &&& grafted.len() > 0 && grafted[0] == root
                &&& preset is None ==> grafted == old(items)@
                &&& preset matches Some(p) ==> {
                    &&& grafted.len() == p@.len()
                    &&& forall|t: int| 1 <= t < p@.len() ==> same_payload(#[trigger] grafted[t], p@[t])
                    &&& forall|t: int, u: int|
                        1 <= t < p@.len() && 0 <= u < p@.len() && #[trigger] links(p@)[t].1 == Some(#[trigger] links(p@)[u].0)
                            ==> links(grafted)[t].1 == Some(links(grafted)[u].0)
                    &&& forall|t: int| 1 <= t < p@.len() ==> (#[trigger] grafted[t]).id@ == root.id@
                        || minted_by(*old(ids), n, grafted[t].id@)
                }
            }
        }),
{
    let ghost start = *ids;
    proof {
        assert(advance(start.counter, 0) == start.counter);
        assert(*ids == advanced(start, 0));
    }
    let mut children: Vec<Item> = Vec::new();
    match preset {
        Some(p) => {
            if p.len() == 0 {
                let head = concat("preset not found for ", chosen_tpl);
                let head = concat(head.as_str(), ", parentId: ");
                let tail = match parent_id {
                    Some(pid) => pid,
                    None => "",
                };
                let message = concat(head.as_str(), tail);
                let mut args: Vec<(String, Option<String>)> = Vec::new();
                args.push(("tpl".to_owned(), Some(chosen_tpl.to_owned())));
                args.push(("defaultId".to_owned(), None));
                args.push(("defaultName".to_owned(), None));
                args.push(("parentId".to_owned(), owned_opt(parent_id)));
                notes.push(Note {
                    level: NoteLevel::Error,
                    message: None,
                    locale_key: Some("location-preset_not_found".to_owned()),
                    args,
                });
                proof {
                    reveal_strlit("");
                }
                return Err(LootError { message });
            }
            let mut preset_items: Vec<Item> = Vec::new();
            let mut k: usize = 0;
            while k < p.len()
                invariant
                    k <= p@.len(),
                    preset_items@ == p@.take(k as int),
                decreases p@.len() - k,
            {
                preset_items.push(p[k].clone());
                assert(preset_items@ =~= p@.take(k + 1));
                k += 1;
            }
            assert(preset_items@ =~= p@);
            let preset_root = p[0].clone();
            children = reparent_item_and_children(&preset_root, preset_items.as_mut_slice(), ids);
            assert(exists|n: nat| *ids == advanced(start, n));
        },
        None => {
            notes.push(plain(NoteLevel::Debug, concat("createStaticLootItem() No preset found for weapon: ", chosen_tpl)));
        },
    }

    if items.len() == 0 {
        let mut args: Vec<(String, Option<String>)> = Vec::new();
        args.push(("tpl".to_owned(), Some(chosen_tpl.to_owned())));
        args.push(("parentId".to_owned(), owned_opt(parent_id)));
        notes.push(Note {
            level: NoteLevel::Error,
            message: None,
            locale_key: Some("location-missing_root_item".to_owned()),
            args,
        });
        return Err(LootError {
            message: "A critical error occurred when generating loot, see server log for details".to_owned(),
        });
    }
    let root_item = items[0].clone();
    let ghost mut total: nat = 0;
    proof {
        if preset is Some {
            total = choose|n: nat| *ids == advanced(start, n);
        }
    }

    if children.len() > 0 {
        let ghost c = children@;
        let ghost mid = *ids;
        let ghost a = total;
        let grafted = reparent_item_and_children(&root_item, children.as_mut_slice(), ids);
        proof {
            let fresh = choose|fresh: Seq<Seq<char>>| #![trigger handed_out(mid, fresh)] {
                let mapping = reparent_map(links(c), c[0].id@, root_item.id@, fresh, c.len());
                &&& fresh.len() == mapping.1
                &&& handed_out(mid, fresh)
                &&& *ids == advanced(mid, mapping.1)
                &&& grafted@ == children@
                &&& grafted@.len() == c.len()
                &&& grafted@[0] == root_item
                &&& forall|t: int| 1 <= t < c.len() ==> same_payload(#[trigger] grafted@[t], c[t])
                &&& forall|t: int| 1 <= t < c.len() ==> (#[trigger] links(grafted@)[t]) == mapped_link(mapping.0, links(c)[t])
                &&& forall|t: int, u: int|
                    1 <= t < c.len() && 0 <= u < c.len()
                        && #[trigger] links(c)[t].1 == Some(#[trigger] links(c)[u].0)
                        ==> links(grafted@)[t].1 == Some(links(grafted@)[u].0)
                &&& forall|t: int| 1 <= t < c.len() ==> (#[trigger] grafted@[t]).id@ == root_item.id@
                    || exists|i: int| 0 <= i < fresh.len() && fresh[i] == grafted@[t].id@
            };
            let b = fresh.len();
            lemma_advance_adds(start.counter, a, b);
            assert(*ids == advanced(start, a + b));
            total = a + b;
            let p = preset->0@;
            assert forall|t: int, u: int|
                1 <= t < p.len() && 0 <= u < p.len() && #[trigger] links(p)[t].1 == Some(#[trigger] links(p)[u].0)
                implies links(grafted@)[t].1 == Some(links(grafted@)[u].0) by {
                assert(links(c)[t].1 == Some(links(c)[u].0));
            }
            assert forall|t: int| 1 <= t < p.len() implies (#[trigger] grafted@[t]).id@ == root_item.id@
                || minted_by(start, total, grafted@[t].id@) by {
                if grafted@[t].id@ != root_item.id@ {
                    let i = choose|i: int| 0 <= i < fresh.len() && fresh[i] == grafted@[t].id@;
                    assert(nth_id(mid, fresh[i], i as nat));
                    lemma_nth_id_after(start, a, fresh[i], i as nat);
                    assert(nth_id(start, grafted@[t].id@, (a + i) as nat));
                }
            }
        }
        *items = grafted;
    }
    let ghost before_move = items@;

    let mag = match magazine_position(items) {
        Some(k) => {
            let magazine = items.remove(k);
            items.push(magazine);
            proof {
                assert(items@ == before_move.remove(k as int).push(before_move[k as int]));
            }
            Some(items.len() - 1)
        },
        None => None,
    };
    proof {
        assert(magazine_moved(before_move, items@, mag));
    }
    Ok((root_item, mag))
}


/// The forced templates of container `container_id`, each once, in the order
/// the forced list first names them.
pub open spec fn forced_tpls(forced: Seq<(String, String)>, container_id: Seq<char>, n: int) -> Seq<Seq<char>>
    decreases n,
{
    if n <= 0 {
        Seq::empty()
    } else {
        let prev = forced_tpls(forced, container_id, n - 1);
        let entry = forced[n - 1];
        if entry.0@ == container_id && !prev.contains(entry.1@) {
            prev.push(entry.1@)
        } else {
            prev
        }
    }
}

/// The drawn templates as the spawn counter sees them: a template already
/// forced into the container is not counted.
pub open spec fn counted_draws(drawn: Seq<String>, forced: Seq<Seq<char>>) -> Seq<Option<String>> {
    Seq::new(drawn.len(), |i: int| if forced.contains(drawn[i]@) { None } else { Some(drawn[i]) })
}

/// Drawn template `i` goes into the container: it is not forced, and
/// counting it does not take it over its spawn limit.
pub open spec fn draw_kept(counter: CounterState, drawn: Seq<String>, forced: Seq<Seq<char>>, i: int) -> bool {
    let counted = counted_draws(drawn, forced);
    let before = counts_after(counter.tracked_counts@, counter.max_counts@, counted, i);
    &&& !forced.contains(drawn[i]@)
    &&& !(counter.max_counts@.contains_key(drawn[i]@) && count_in(before, drawn[i]@) + 1 > counter.max_counts@[drawn[i]@])
}

/// `picked` are, in order, exactly the positions of the drawn templates that
/// go into the container.
pub open spec fn picks_kept(picked: Seq<usize>, counter: CounterState, drawn: Seq<String>, forced: Seq<Seq<char>>) -> bool {
    picks(picked, drawn.len() as int, |i: int| draw_kept(counter, drawn, forced, i))
}

/// The templates that go into the static container `container_id`: first
/// the ones forced into it (each once), then each drawn template that is not
/// forced and does not take its template over its spawn limit. Every drawn
/// template that is not forced is counted, kept or not.
pub fn tpls_to_add_to_container(
    counter: &mut CounterState,
    forced: &[(String, String)],
    container_id: &str,
    drawn: &[String],
) -> (r: Vec<String>)
    requires
        forall|i: int| 0 <= i < drawn@.len() && old(counter).max_counts@.contains_key((#[trigger] drawn@[i])@)
            && !forced_tpls(forced@, container_id@, forced@.len() as int).contains(drawn@[i]@)
            ==> count_in(counts_after(old(counter).tracked_counts@, old(counter).max_counts@,
                counted_draws(drawn@, forced_tpls(forced@, container_id@, forced@.len() as int)), i), drawn@[i]@) < i32::MAX,
    ensures
        ({
            let ft = forced_tpls(forced@, container_id@, forced@.len() as int);
            &&& r@.len() >= ft.len()
            &&& forall|k: int| 0 <= k < ft.len() ==> (#[trigger] r@[k])@ == ft[k]
            &&& exists|picked: Seq<usize>| {
                &&& picked.len() == r@.len() - ft.len()
                &&& #[trigger] picks_kept(picked, *old(counter), drawn@, ft)
                &&& forall|k: int| 0 <= k < picked.len() ==> (#[trigger] r@[ft.len() + k])@ == drawn@[picked[k] as int]@
            }
            &&& final(counter).max_counts@ == old(counter).max_counts@
            &&& final(counter).tracked_counts@
                == counts_after(old(counter).tracked_counts@, old(counter).max_counts@, counted_draws(drawn@, ft), drawn@.len() as int)
        }),
{
    let ghost start = *counter;
    let mut r: Vec<String> = Vec::new();
    let mut f: usize = 0;
    while f < forced.len()
        invariant
            f <= forced@.len(),
            r@.len() == forced_tpls(forced@, container_id@, f as int).len(),
            forall|k: int| 0 <= k < r@.len() ==> (#[trigger] r@[k])@ == forced_tpls(forced@, container_id@, f as int)[k],
        decreases forced@.len() - f,
    {
        let ghost prev = forced_tpls(forced@, container_id@, f as int);
        if str_eq(forced[f].0.as_str(), container_id) {
            let mut seen = false;
            let mut k: usize = 0;
            while k < r.len()
                invariant
                    f < forced@.len(),
                    k <= r@.len(),
                    r@.len() == prev.len(),
                    forall|t: int| 0 <= t < r@.len() ==> (#[trigger] r@[t])@ == prev[t],
                    seen == exists|t: int| 0 <= t < k && prev[t] == forced@[f as int].1@,
                decreases r@.len() - k,
            {
                if str_eq(r[k].as_str(), forced[f].1.as_str()) {
                    seen = true;
                }
                k += 1;
            }
            proof {
                if seen {
                    let t = choose|t: int| 0 <= t < k && prev[t] == forced@[f as int].1@;
                    assert(prev.contains(forced@[f as int].1@));
                } else {
                    assert(!prev.contains(forced@[f as int].1@));
                }
            }
            if !seen {
                let ghost before = r@;
                r.push(forced[f].1.clone());
                proof {
                    assert forall|t: int| 0 <= t < r@.len() implies (#[trigger] r@[t])@ == forced_tpls(forced@, container_id@, f + 1)[t] by {
                        if t < before.len() {
                            assert(r@[t] == before[t]);
                        }
                    }
                }
            }
        }
        f += 1;
    }
    let ghost ft = forced_tpls(forced@, container_id@, forced@.len() as int);
    let n_forced = r.len();
    let ghost counted = counted_draws(drawn@, ft);
    let ghost keep = |i: int| draw_kept(start, drawn@, ft, i);
    let ghost mut picked: Seq<usize> = Seq::empty();
    let mut i: usize = 0;
    while i < drawn.len()
        invariant
            i <= drawn@.len(),
            n_forced == ft.len(),
            ft == forced_tpls(forced@, container_id@, forced@.len() as int),
            counted == counted_draws(drawn@, ft),
            keep == (|i: int| draw_kept(start, drawn@, ft, i)),
            r@.len() == ft.len() + picked.len(),
            forall|k: int| 0 <= k < ft.len() ==> (#[trigger] r@[k])@ == ft[k],
            picks(picked, i as int, keep),
            forall|k: int| 0 <= k < picked.len() ==> (#[trigger] r@[ft.len() + k])@ == drawn@[picked[k] as int]@,
            counter.max_counts@ == start.max_counts@,
            counter.tracked_counts@ == counts_after(start.tracked_counts@, start.max_counts@, counted, i as int),
            forall|j: int| 0 <= j < drawn@.len() && start.max_counts@.contains_key((#[trigger] drawn@[j])@)
                && !ft.contains(drawn@[j]@)
                ==> count_in(counts_after(start.tracked_counts@, start.max_counts@, counted, j), drawn@[j]@) < i32::MAX,
        decreases drawn@.len() - i,
    {
        let tpl = &drawn[i];
        // Is the drawn template one of the forced ones?
        let mut is_forced = false;
        let mut k: usize = 0;
        while k < n_forced
            invariant
                k <= n_forced,
                n_forced == ft.len(),
                r@.len() >= ft.len(),
                forall|t: int| 0 <= t < ft.len() ==> (#[trigger] r@[t])@ == ft[t],
                is_forced == exists|t: int| 0 <= t < k && ft[t] == tpl@,
            decreases n_forced - k,
        {
            if str_eq(r[k].as_str(), tpl.as_str()) {
                is_forced = true;
            }
            k += 1;
        }
        proof {
            if is_forced {
                let t = choose|t: int| 0 <= t < k && ft[t] == tpl@;
                assert(ft.contains(tpl@));
            } else {
                assert(!ft.contains(tpl@));
            }
            assert(counted[i as int] == if ft.contains(drawn@[i as int]@) { None } else { Some(drawn@[i as int]) });
        }
        let ghost before_picked = picked;
        if !is_forced {
            proof {
                assert(spawned_so_far(*counter, tpl@) == count_in(counter.tracked_counts@, tpl@));
            }
            let over = increment_count(counter, tpl.as_str());
            proof {
                assert(counter.tracked_counts@ =~= counts_after(start.tracked_counts@, start.max_counts@, counted, i + 1));
            }
            if !over {
                let ghost before_r = r@;
                r.push(tpl.clone());
                proof {
                    picked = picked.push(i);
                    assert forall|k2: int| 0 <= k2 < ft.len() implies (#[trigger] r@[k2])@ == ft[k2] by {
                        assert(r@[k2] == before_r[k2]);
                    }
                    assert forall|k2: int| 0 <= k2 < picked.len() implies (#[trigger] r@[ft.len() + k2])@ == drawn@[picked[k2] as int]@ by {
                        if k2 < before_picked.len() {
                            assert(r@[ft.len() + k2] == before_r[ft.len() + k2]);
                        }
                    }
                }
            }
        } else {
            proof {
                assert(counts_after(start.tracked_counts@, start.max_counts@, counted, i + 1)
                    == counts_after(start.tracked_counts@, start.max_counts@, counted, i as int));
            }
        }
        proof {
            assert(keep(i as int) == draw_kept(start, drawn@, ft, i as int));
            assert forall|j: int| 0 <= j < i + 1 && #[trigger] keep(j) implies exists|k2: int| 0 <= k2 < picked.len() && picked[k2] == j by {
                if j == i {
                    assert(picked[picked.len() - 1] == j);
                } else {
                    let k2 = choose|k2: int| 0 <= k2 < before_picked.len() && before_picked[k2] == j;
                    assert(picked[k2] == j);
                }
            }
        }
        i += 1;
    }
    proof {
        assert(picks_kept(picked, start, drawn@, ft));
    }
    r
}


/// How a spawned loot item of some template is built.
#[derive(Debug, Clone, Copy, PartialEq, Eq, Structural)]
pub enum LootKind {
    /// Money or ammunition: one item with a random stack size.
    Stack,
    /// A weapon, built from its default preset.
    Weapon,
    /// An ammunition box, to be filled with cartridges.
    AmmoBox,
    /// A magazine, to be filled with cartridges by chance.
    Magazine,
    /// Armour that holds mods, built from its preset or its slots.
    Armor,
    /// Anything else.
    Plain,
}

/// The parent chain of `tpl` comes to an end.
pub open spec fn chain_ends(m: Map<Seq<char>, ItemView>, tpl: Seq<char>) -> bool {
    exists|n: nat| #[trigger] ancestor(m, tpl, n) is None
}

/// How a static container's loot item of template `tpl` is built: money and
/// ammunition first, then weapons, ammunition boxes, magazines and armour
/// that holds mods, in that order.
pub open spec fn static_kind(m: Map<Seq<char>, ItemView>, tpl: Seq<char>) -> LootKind {
    if has_base(m, tpl, seq![MONEY]) || has_base(m, tpl, seq![AMMO]) {
        LootKind::Stack
    } else if has_base(m, tpl, seq![WEAPON]) {
        LootKind::Weapon
    } else if has_base(m, tpl, seq![AMMO_BOX]) {
        LootKind::AmmoBox
    } else if has_base(m, tpl, seq![MAGAZINE]) {
        LootKind::Magazine
    } else if has_base(m, tpl, armor_bases()) {
        LootKind::Armor
    } else {
        LootKind::Plain
    }
}

/// How a loose loot item of template `tpl` is built: money and ammunition,
/// then ammunition boxes and magazines; anything else is taken with its
/// children from the spawn point.
pub open spec fn loose_kind(m: Map<Seq<char>, ItemView>, tpl: Seq<char>) -> LootKind {
    if has_base(m, tpl, seq![MONEY]) || has_base(m, tpl, seq![AMMO]) {
        LootKind::Stack
    } else if has_base(m, tpl, seq![AMMO_BOX]) {
        LootKind::AmmoBox
    } else if has_base(m, tpl, seq![MAGAZINE]) {
        LootKind::Magazine
    } else {
        LootKind::Plain
    }
}

/// A chain that ends ends every walk up it, whatever is asked about.
proof fn lemma_chain_end_ends_walks(m: Map<Seq<char>, ItemView>, tpl: Seq<char>, bases: Seq<&str>)
    requires
        chain_ends(m, tpl),
    ensures
        crate::loot::item_helper::walk_ends(m, tpl, bases),
{
    let n = choose|n: nat| #[trigger] ancestor(m, tpl, n) is None;
    assert(ancestor(m, tpl, 0) is Some);
    assert(n >= 1);
    assert(ancestor(m, tpl, n) is None || crate::loot::item_helper::among(bases, ancestor(m, tpl, n)->0));
}

/// How a static container's loot item of template `tpl` is built. A parent
/// chain that loops would never end the base-class walks, so it is not
/// accepted.
pub fn static_loot_kind(items_view: &StringMap<ItemView>, tpl: &str) -> (r: LootKind)
    requires
        chain_ends(items_view@, tpl@),
    ensures
        r == static_kind(items_view@, tpl@),
        r == LootKind::Stack <==> is_stack_class(items_view@, tpl@),
        r == LootKind::Weapon <==> !is_stack_class(items_view@, tpl@) && has_base(items_view@, tpl@, seq![WEAPON]),
        r == LootKind::Armor <==> !is_stack_class(items_view@, tpl@) && !has_base(items_view@, tpl@, seq![WEAPON])
            && !has_base(items_view@, tpl@, seq![AMMO_BOX]) && !has_base(items_view@, tpl@, seq![MAGAZINE])
            && is_armour_class(items_view@, tpl@),
{
    proof {
        lemma_static_kind_by_base_class(items_view@, tpl@);
        lemma_chain_end_ends_walks(items_view@, tpl@, seq![MONEY]);
        lemma_chain_end_ends_walks(items_view@, tpl@, seq![AMMO]);
        lemma_chain_end_ends_walks(items_view@, tpl@, seq![WEAPON]);
        lemma_chain_end_ends_walks(items_view@, tpl@, seq![AMMO_BOX]);
        lemma_chain_end_ends_walks(items_view@, tpl@, seq![MAGAZINE]);
        lemma_chain_end_ends_walks(items_view@, tpl@, armor_bases());
    }
    if is_of_baseclass(items_view, tpl, MONEY) || is_of_baseclass(items_view, tpl, AMMO) {
        LootKind::Stack
    } else if is_of_baseclass(items_view, tpl, WEAPON) {
        LootKind::Weapon
    } else if is_of_baseclass(items_view, tpl, AMMO_BOX) {
        LootKind::AmmoBox
    } else if is_of_baseclass(items_view, tpl, MAGAZINE) {
        LootKind::Magazine
    } else if armor_item_can_hold_mods(items_view, tpl) {
        LootKind::Armor
    } else {
        LootKind::Plain
    }
}

/// How a loose loot item of template `tpl` is built. A parent chain that
/// loops would never end the base-class walks, so it is not accepted.
pub fn loose_loot_kind(items_view: &StringMap<ItemView>, tpl: &str) -> (r: LootKind)
    requires
        chain_ends(items_view@, tpl@),
    ensures
        r == loose_kind(items_view@, tpl@),
        r == LootKind::Stack <==> is_stack_class(items_view@, tpl@),
        r == LootKind::AmmoBox <==> !is_stack_class(items_view@, tpl@) && has_base(items_view@, tpl@, seq![AMMO_BOX]),
        r == LootKind::Plain <==> !is_stack_class(items_view@, tpl@) && !has_base(items_view@, tpl@, seq![AMMO_BOX])
            && !has_base(items_view@, tpl@, seq![MAGAZINE]),
{
    proof {
        lemma_loose_kind_by_base_class(items_view@, tpl@);
        lemma_chain_end_ends_walks(items_view@, tpl@, seq![MONEY]);
        lemma_chain_end_ends_walks(items_view@, tpl@, seq![AMMO]);
        lemma_chain_end_ends_walks(items_view@, tpl@, seq![AMMO_BOX]);
        lemma_chain_end_ends_walks(items_view@, tpl@, seq![MAGAZINE]);
    }
    if is_of_baseclass(items_view, tpl, MONEY) || is_of_baseclass(items_view, tpl, AMMO) {
        LootKind::Stack
    } else if is_of_baseclass(items_view, tpl, AMMO_BOX) {
        LootKind::AmmoBox
    } else if is_of_baseclass(items_view, tpl, MAGAZINE) {
        LootKind::Magazine
    } else {
        LootKind::Plain
    }
}

/// How many of the first `i` drawn templates are `t` and counted (not forced).
pub open spec fn counted_of(drawn: Seq<String>, forced: Seq<Seq<char>>, t: Seq<char>, i: int) -> int
    decreases i,
{
    if i <= 0 {
        0
    } else {
        counted_of(drawn, forced, t, i - 1) + if drawn[i - 1]@ == t && !forced.contains(t) { 1int } else { 0int }
    }
}

/// How many of the first `n` picked draws are `t`.
pub open spec fn kept_of(picked: Seq<usize>, drawn: Seq<String>, t: Seq<char>, n: int) -> int
    decreases n,
{
    if n <= 0 {
        0
    } else {
        kept_of(picked, drawn, t, n - 1) + if drawn[picked[n - 1] as int]@ == t { 1int } else { 0int }
    }
}

/// The count of a limited template after the first `i` draws are counted is
/// its count before plus the number of those draws that are it.
proof fn lemma_counted_draws_add_up(counter: CounterState, drawn: Seq<String>, forced: Seq<Seq<char>>, t: Seq<char>, i: int)
    requires
        0 <= i <= drawn.len(),
        counter.max_counts@.contains_key(t),
        count_in(counter.tracked_counts@, t) + counted_of(drawn, forced, t, i) <= i32::MAX,
    ensures
        count_in(counts_after(counter.tracked_counts@, counter.max_counts@, counted_draws(drawn, forced), i), t)
            == count_in(counter.tracked_counts@, t) + counted_of(drawn, forced, t, i),
    decreases i,
{
    if i > 0 {
        lemma_counted_of_grows(drawn, forced, t, i - 1, i);
        lemma_counted_draws_add_up(counter, drawn, forced, t, i - 1);
        let cd = counted_draws(drawn, forced);
        let prev = counts_after(counter.tracked_counts@, counter.max_counts@, cd, i - 1);
        assert(cd[i - 1] == if forced.contains(drawn[i - 1]@) { None } else { Some(drawn[i - 1]) });
        assert(counted_of(drawn, forced, t, i) == counted_of(drawn, forced, t, i - 1)
            + if drawn[i - 1]@ == t && !forced.contains(t) { 1int } else { 0int });
        if !forced.contains(drawn[i - 1]@) && counter.max_counts@.contains_key(drawn[i - 1]@) {
            let after = prev.insert(drawn[i - 1]@, (count_in(prev, drawn[i - 1]@) + 1) as i32);
            assert(counts_after(counter.tracked_counts@, counter.max_counts@, cd, i) == after);
            if drawn[i - 1]@ != t {
                assert(count_in(after, t) == count_in(prev, t));
            }
        } else {
            assert(counts_after(counter.tracked_counts@, counter.max_counts@, cd, i) == prev);
        }
    }
}

/// Counting more draws never counts fewer of a template.
proof fn lemma_counted_of_grows(drawn: Seq<String>, forced: Seq<Seq<char>>, t: Seq<char>, i: int, j: int)
    requires
        0 <= i <= j,
    ensures
        counted_of(drawn, forced, t, i) <= counted_of(drawn, forced, t, j),
    decreases j - i,
{
    if i < j {
        lemma_counted_of_grows(drawn, forced, t, i, j - 1);
    }
}

/// Each kept draw of `t` sits after at least as many counted draws of `t` as
/// there are kept draws of `t` before it.
proof fn lemma_kept_follow_counted(
    picked: Seq<usize>,
    counter: CounterState,
    drawn: Seq<String>,
    forced: Seq<Seq<char>>,
    t: Seq<char>,
    n: int,
)
    requires
        picks_kept(picked, counter, drawn, forced),
        0 < n <= picked.len(),
    ensures
        kept_of(picked, drawn, t, n - 1) <= counted_of(drawn, forced, t, picked[n - 1] as int),
    decreases n,
{
    lemma_counted_of_grows(drawn, forced, t, 0, picked[n - 1] as int);
    if n > 1 {
        lemma_kept_follow_counted(picked, counter, drawn, forced, t, n - 1);
        let p = picked[n - 2] as int;
        let q = picked[n - 1] as int;
        assert(p < q);
        assert(draw_kept(counter, drawn, forced, p));
        assert(kept_of(picked, drawn, t, n - 1) == kept_of(picked, drawn, t, n - 2) + if drawn[p]@ == t { 1int } else { 0int });
        assert(counted_of(drawn, forced, t, p + 1) == counted_of(drawn, forced, t, p) + if drawn[p]@ == t && !forced.contains(t) { 1int } else { 0int });
        lemma_counted_of_grows(drawn, forced, t, p + 1, q);
    }
}

/// Spawn limits hold inside a container: of the draws that go into a
/// container, those of a limited template number at most what its limit
/// leaves over its count before the container, and at most the rise of its
/// count over the container. Containers filled one after the other with the
/// same counter thus never take a template past its limit between them.
pub proof fn lemma_spawn_limits_cap_kept_draws(
    picked: Seq<usize>,
    counter: CounterState,
    drawn: Seq<String>,
    forced: Seq<Seq<char>>,
    t: Seq<char>,
)
    requires
        picks_kept(picked, counter, drawn, forced),
        counter.max_counts@.contains_key(t),
        count_in(counter.tracked_counts@, t) + counted_of(drawn, forced, t, drawn.len() as int) <= i32::MAX,
    ensures
        kept_of(picked, drawn, t, picked.len() as int) <= counter.max_counts@[t] - count_in(counter.tracked_counts@, t)
            || kept_of(picked, drawn, t, picked.len() as int) == 0,
        kept_of(picked, drawn, t, picked.len() as int)
            <= count_in(counts_after(counter.tracked_counts@, counter.max_counts@, counted_draws(drawn, forced), drawn.len() as int), t)
                - count_in(counter.tracked_counts@, t),
{
    lemma_kept_bounded(picked, counter, drawn, forced, t, picked.len() as int);
    lemma_counted_draws_add_up(counter, drawn, forced, t, drawn.len() as int);
}

/// Spawn limits hold across containers: when two containers are filled one
/// after the other with the same counter (`second` is the counter as the
/// first container left it), the draws of a limited template
/// that go into either of them number at most what its limit leaves over its
/// count before the first (or none go in at all).
pub proof fn lemma_spawn_limits_hold_across_containers(
    counter: CounterState,
    first_picked: Seq<usize>,
    first_drawn: Seq<String>,
    first_forced: Seq<Seq<char>>,
    second: CounterState,
    second_picked: Seq<usize>,
    second_drawn: Seq<String>,
    second_forced: Seq<Seq<char>>,
    t: Seq<char>,
)
    requires
        picks_kept(first_picked, counter, first_drawn, first_forced),
        second.max_counts@ == counter.max_counts@,
        second.tracked_counts@ == counts_after(counter.tracked_counts@, counter.max_counts@,
            counted_draws(first_drawn, first_forced), first_drawn.len() as int),
        picks_kept(second_picked, second, second_drawn, second_forced),
        counter.max_counts@.contains_key(t),
        count_in(counter.tracked_counts@, t) + counted_of(first_drawn, first_forced, t, first_drawn.len() as int)
            + counted_of(second_drawn, second_forced, t, second_drawn.len() as int) <= i32::MAX,
    ensures
        kept_of(first_picked, first_drawn, t, first_picked.len() as int) + kept_of(second_picked, second_drawn, t, second_picked.len() as int)
            <= counter.max_counts@[t] - count_in(counter.tracked_counts@, t)
        || kept_of(first_picked, first_drawn, t, first_picked.len() as int) + kept_of(second_picked, second_drawn, t, second_picked.len() as int) == 0,
{
    lemma_counted_of_grows(second_drawn, second_forced, t, 0, second_drawn.len() as int);
    lemma_counted_of_grows(first_drawn, first_forced, t, 0, first_drawn.len() as int);
    lemma_spawn_limits_cap_kept_draws(first_picked, counter, first_drawn, first_forced, t);
    lemma_counted_draws_add_up(counter, first_drawn, first_forced, t, first_drawn.len() as int);
    lemma_spawn_limits_cap_kept_draws(second_picked, second, second_drawn, second_forced, t);
}

/// The first `m` kept draws of `t` are bounded by its counted draws and, when
/// there are any, by what its limit leaves.
proof fn lemma_kept_bounded(
    picked: Seq<usize>,
    counter: CounterState,
    drawn: Seq<String>,
    forced: Seq<Seq<char>>,
    t: Seq<char>,
    m: int,
)
    requires
        picks_kept(picked, counter, drawn, forced),
        counter.max_counts@.contains_key(t),
        count_in(counter.tracked_counts@, t) + counted_of(drawn, forced, t, drawn.len() as int) <= i32::MAX,
        0 <= m <= picked.len(),
    ensures
        kept_of(picked, drawn, t, m) <= counted_of(drawn, forced, t, drawn.len() as int),
        kept_of(picked, drawn, t, m) == 0 || kept_of(picked, drawn, t, m) <= counter.max_counts@[t] - count_in(counter.tracked_counts@, t),
    decreases m,
{
    lemma_counted_of_grows(drawn, forced, t, 0, drawn.len() as int);
    if m > 0 {
        lemma_kept_bounded(picked, counter, drawn, forced, t, m - 1);
        let q = picked[m - 1] as int;
        assert(q < drawn.len());
        assert(kept_of(picked, drawn, t, m) == kept_of(picked, drawn, t, m - 1) + if drawn[q]@ == t { 1int } else { 0int });
        if drawn[q]@ == t {
            lemma_kept_follow_counted(picked, counter, drawn, forced, t, m);
            assert(draw_kept(counter, drawn, forced, q));
            lemma_counted_of_grows(drawn, forced, t, q, drawn.len() as int);
            lemma_counted_draws_add_up(counter, drawn, forced, t, q);
            assert(!forced.contains(t));
            assert(counted_of(drawn, forced, t, q + 1) == counted_of(drawn, forced, t, q) + 1);
            lemma_counted_of_grows(drawn, forced, t, q + 1, drawn.len() as int);
        }
    }
}

/// Whether the parent chain of template `tpl` is seen to end within as many
/// steps as the view has templates, plus one. A chain that ends within that
/// many steps ends; one that goes on longer loops, since it repeats a
/// template.
pub fn parent_chain_ends(items_view: &StringMap<ItemView>, tpl: &str) -> (r: bool)
    ensures
        r ==> chain_ends(items_view@, tpl@),
{
    let ghost m = items_view@;
    let mut current: String = tpl.to_owned();
    let limit = items_view.len();
    let mut steps: usize = 0;
    proof {
        assert(ancestor(m, tpl@, 0) == Some(tpl@));
    }
    while steps <= limit
        invariant
            m == items_view@,
            ancestor(m, tpl@, steps as nat) == Some(current@),
        decreases limit + 1 - steps,
    {
        let next: Option<String> = match items_view.get(current.as_str()) {
            Some(v) => match &v.parent {
                Some(p) => if str_eq(p.as_str(), "") {
                    None
                } else {
                    Some(p.clone())
                },
                None => None,
            },
            None => None,
        };
        proof {
            reveal_strlit("");
            assert(ancestor(m, tpl@, (steps + 1) as nat) == parent_of(m, current@));
            if next is Some {
                let p = next->0;
                assert(p@.len() > 0) by {
                    if p@.len() == 0 {
                        assert(p@ =~= ""@);
                    }
                }
            }
            assert(parent_of(m, current@) == match next { Some(p) => Some(p@), None => None::<Seq<char>> });
        }
        match next {
            Some(p) => {
                current = p;
            },
            None => {
                proof {
                    assert(ancestor(m, tpl@, (steps + 1) as nat) is None);
                }
                return true;
            },
        }
        if steps == limit {
            return false;
        }
        steps += 1;
    }
    false
}

/// Template `tpl` is money or ammunition: a stack.
pub open spec fn is_stack_class(m: Map<Seq<char>, ItemView>, tpl: Seq<char>) -> bool {
    has_base(m, tpl, seq![MONEY]) || has_base(m, tpl, seq![AMMO])
}

/// Template `tpl` is headwear, a vest or armour: armour that holds mods.
pub open spec fn is_armour_class(m: Map<Seq<char>, ItemView>, tpl: Seq<char>) -> bool {
    ||| has_base(m, tpl, seq![HEADWEAR])
    ||| has_base(m, tpl, seq![VEST])
    ||| has_base(m, tpl, seq![ARMOR])
}

/// Asking about headwear, vests and armour together is asking about each.
proof fn lemma_armour_bases_are_each(m: Map<Seq<char>, ItemView>, tpl: Seq<char>)
    ensures
        has_base(m, tpl, armor_bases()) == is_armour_class(m, tpl),
{
    let b = armor_bases();
    if has_base(m, tpl, b) {
        let n = choose|n: nat| n >= 1 && (#[trigger] ancestor(m, tpl, n) matches Some(a) && among(b, a));
        let a = ancestor(m, tpl, n)->0;
        let j = choose|j: int| 0 <= j < b.len() && (#[trigger] b[j])@ == a;
        if j == 0 {
            assert(seq![HEADWEAR][0]@ == a);
            assert(has_base(m, tpl, seq![HEADWEAR]));
        } else if j == 1 {
            assert(seq![VEST][0]@ == a);
            assert(has_base(m, tpl, seq![VEST]));
        } else {
            assert(seq![ARMOR][0]@ == a);
            assert(has_base(m, tpl, seq![ARMOR]));
        }
    }
    if has_base(m, tpl, seq![HEADWEAR]) {
        let n = choose|n: nat| n >= 1 && (#[trigger] ancestor(m, tpl, n) matches Some(a) && among(seq![HEADWEAR], a));
        assert(b[0] == HEADWEAR);
        assert(among(b, ancestor(m, tpl, n)->0));
    }
    if has_base(m, tpl, seq![VEST]) {
        let n = choose|n: nat| n >= 1 && (#[trigger] ancestor(m, tpl, n) matches Some(a) && among(seq![VEST], a));
        assert(b[1] == VEST);
        assert(among(b, ancestor(m, tpl, n)->0));
    }
    if has_base(m, tpl, seq![ARMOR]) {
        let n = choose|n: nat| n >= 1 && (#[trigger] ancestor(m, tpl, n) matches Some(a) && among(seq![ARMOR], a));
        assert(b[2] == ARMOR);
        assert(among(b, ancestor(m, tpl, n)->0));
    }
}

/// A static container's loot item is built by its base classes: money and
/// ammunition are stacks; otherwise weapons are built from presets; then
/// ammunition boxes, then magazines; then headwear, vests and armour are
/// built as armour; anything else is a plain item.
pub proof fn lemma_static_kind_by_base_class(m: Map<Seq<char>, ItemView>, tpl: Seq<char>)
    ensures
        is_stack_class(m, tpl) ==> static_kind(m, tpl) == LootKind::Stack,
        !is_stack_class(m, tpl) && has_base(m, tpl, seq![WEAPON]) ==> static_kind(m, tpl) == LootKind::Weapon,
        !is_stack_class(m, tpl) && !has_base(m, tpl, seq![WEAPON]) && has_base(m, tpl, seq![AMMO_BOX])
            ==> static_kind(m, tpl) == LootKind::AmmoBox,
        !is_stack_class(m, tpl) && !has_base(m, tpl, seq![WEAPON]) && !has_base(m, tpl, seq![AMMO_BOX])
            && has_base(m, tpl, seq![MAGAZINE]) ==> static_kind(m, tpl) == LootKind::Magazine,
        !is_stack_class(m, tpl) && !has_base(m, tpl, seq![WEAPON]) && !has_base(m, tpl, seq![AMMO_BOX])
            && !has_base(m, tpl, seq![MAGAZINE]) && is_armour_class(m, tpl) ==> static_kind(m, tpl) == LootKind::Armor,
        !is_stack_class(m, tpl) && !has_base(m, tpl, seq![WEAPON]) && !has_base(m, tpl, seq![AMMO_BOX])
            && !has_base(m, tpl, seq![MAGAZINE]) && !is_armour_class(m, tpl) ==> static_kind(m, tpl) == LootKind::Plain,
{
    lemma_armour_bases_are_each(m, tpl);
}

/// A loose loot item is built by its base classes: money and ammunition are
/// stacks; otherwise ammunition boxes, then magazines, are new items; anything
/// else is the spawn point's item with its children.
pub proof fn lemma_loose_kind_by_base_class(m: Map<Seq<char>, ItemView>, tpl: Seq<char>)
    ensures
        is_stack_class(m, tpl) ==> loose_kind(m, tpl) == LootKind::Stack,
        !is_stack_class(m, tpl) && has_base(m, tpl, seq![AMMO_BOX]) ==> loose_kind(m, tpl) == LootKind::AmmoBox,
        !is_stack_class(m, tpl) && !has_base(m, tpl, seq![AMMO_BOX]) && has_base(m, tpl, seq![MAGAZINE])
            ==> loose_kind(m, tpl) == LootKind::Magazine,
        !is_stack_class(m, tpl) && !has_base(m, tpl, seq![AMMO_BOX]) && !has_base(m, tpl, seq![MAGAZINE])
            ==> loose_kind(m, tpl) == LootKind::Plain,
{
}

} // verus!
