//! Template lookups, base-class tests, item-tree walks and re-iding, and
//! container sizing for the loot generator.

use vstd::prelude::*;

use crate::loot::models::{clone_opt_string, opt_view, Item, ItemView, SptLootItem};
use crate::loot::mongo_id::{advance, advanced, handed_out, id_text, next_counter, nth_id, MongoIdGenerator};
use crate::string_map::StringMap;
use crate::strings::str_eq;

verus! {

/// Base class of money.
pub const MONEY: &'static str = "543be5dd4bdc2deb348b4569";
/// Base class of ammunition.
pub const AMMO: &'static str = "5485a8684bdc2da71d8b4567";
/// Base class of ammunition boxes.
pub const AMMO_BOX: &'static str = "543be5cb4bdc2deb348b4568";
/// Base class of magazines.
pub const MAGAZINE: &'static str = "5448bc234bdc2d3c308b4569";
/// Base class of weapons.
pub const WEAPON: &'static str = "5422acb9af1c889c16000029";
/// Base class of launchers.
pub const LAUNCHER: &'static str = "55818b014bdc2ddc698b456b";
/// Base class of spring-driven cylinders.
pub const SPRING_DRIVEN_CYLINDER: &'static str = "627a137bf21bc425b06ab944";
/// Base class of headwear.
pub const HEADWEAR: &'static str = "5a341c4086f77401f2541505";
/// Base class of vests.
pub const VEST: &'static str = "5448e5284bdc2dcb718b4567";
/// Base class of armor.
pub const ARMOR: &'static str = "5448e54d4bdc2dcc718b4568";

/// The template for `tpl`, if the view has one.
pub fn get_item<'a>(items_view: &'a StringMap<ItemView>, tpl: &str) -> (r: Option<&'a ItemView>)
    ensures
        r is Some <==> items_view@.contains_key(tpl@),
        r matches Some(v) ==> *v == items_view@[tpl@],
{
    items_view.get(tpl)
}

/// The parent of template `k`: absent when `k` has no template, or its
/// template names no parent or an empty one.
pub open spec fn parent_of(m: Map<Seq<char>, ItemView>, k: Seq<char>) -> Option<Seq<char>> {
    if m.contains_key(k) {
        match m[k].parent {
            Some(p) => if p@.len() > 0 { Some(p@) } else { None },
            None => None,
        }
    } else {
        None
    }
}

/// The `n`-th link up the parent chain of `k` (`k` itself at 0), absent once
/// the chain has ended.
pub open spec fn ancestor(m: Map<Seq<char>, ItemView>, k: Seq<char>, n: nat) -> Option<Seq<char>>
    decreases n,
{
    if n == 0 {
        Some(k)
    } else {
        match ancestor(m, k, (n - 1) as nat) {
            Some(a) => parent_of(m, a),
            None => None,
        }
    }
}

/// `a` is one of the base classes asked about.
pub open spec fn among(bases: Seq<&str>, a: Seq<char>) -> bool {
    exists|j: int| 0 <= j < bases.len() && (#[trigger] bases[j])@ == a
}

/// Some proper ancestor of `k` is one of `bases`.
pub open spec fn has_base(m: Map<Seq<char>, ItemView>, k: Seq<char>, bases: Seq<&str>) -> bool {
    exists|n: nat| n >= 1 && (#[trigger] ancestor(m, k, n) matches Some(a) && among(bases, a))
}

/// Walking up from `k` comes to an end: some proper ancestor is missing or is
/// one of `bases`.
pub open spec fn walk_ends(m: Map<Seq<char>, ItemView>, k: Seq<char>, bases: Seq<&str>) -> bool {
    exists|n: nat| n >= 1 && (#[trigger] ancestor(m, k, n) is None || among(bases, ancestor(m, k, n)->0))
}

/// Whether some proper ancestor of template `tpl` is one of `base_class_tpls`.
///
/// The walk starts at `tpl`'s own parent (a template is never its own base
/// class) and climbs until a parent is missing, empty, absent from the view,
/// or one of the classes asked about. An unknown `tpl` has no base class. A
/// parent chain that loops back on itself without reaching one of the classes
/// never ends, so it is not accepted.
pub fn is_of_baseclasses(
    items_view: &StringMap<ItemView>,
    tpl: &str,
    base_class_tpls: &[&str],
) -> (r: bool)
    requires
        walk_ends(items_view@, tpl@, base_class_tpls@),
    ensures
        r == has_base(items_view@, tpl@, base_class_tpls@),
{
    let ghost m = items_view@;
    let ghost bases = base_class_tpls@;
    let ghost end = choose|n: nat| n >= 1 && (#[trigger] ancestor(m, tpl@, n) is None || among(bases, ancestor(m, tpl@, n)->0));
    let mut current = items_view.get(tpl);
    let ghost mut steps: nat = 0;
    proof {
        lemma_no_base_before_end(m, tpl@, bases, end);
    }

    while current.is_some()
        invariant
            m == items_view@,
            bases == base_class_tpls@,
            1 <= end,
            ancestor(m, tpl@, end) is None || among(bases, ancestor(m, tpl@, end)->0),
            steps < end,
            ancestor(m, tpl@, steps) is Some,
            current is Some <==> m.contains_key(ancestor(m, tpl@, steps)->0),
            current matches Some(item) ==> *item == m[ancestor(m, tpl@, steps)->0],
            forall|n: nat| 1 <= n <= steps ==> !(#[trigger] ancestor(m, tpl@, n) matches Some(a) && among(bases, a)),
        decreases end - steps,
    {
        let item = current.unwrap();
        let ghost here = ancestor(m, tpl@, steps)->0;
        assert(ancestor(m, tpl@, (steps + 1) as nat) == parent_of(m, here));
        let parent: &str = match &item.parent {
            Some(parent) => {
                if parent.as_str().is_empty() {
                    // Root node reached, chain exhausted.
                    proof { lemma_no_base_after_end(m, tpl@, bases, (steps + 1) as nat); }
                    return false;
                }
                parent.as_str()
            },
            None => {
                proof { lemma_no_base_after_end(m, tpl@, bases, (steps + 1) as nat); }
                return false;
            },
        };
        assert(parent_of(m, here) == Some(parent@));

        let mut j: usize = 0;
        while j < base_class_tpls.len()
            invariant
                bases == base_class_tpls@,
                m == items_view@,
                ancestor(m, tpl@, (steps + 1) as nat) == Some(parent@),
                j <= bases.len(),
                forall|k: int| 0 <= k < j ==> (#[trigger] bases[k])@ != parent@,
            decreases bases.len() - j,
        {
            if str_eq(base_class_tpls[j], parent) {
                assert(among(bases, parent@)) by {
                    assert((bases[j as int])@ == parent@);
                }
                assert(ancestor(m, tpl@, (steps + 1) as nat) matches Some(a) && among(bases, a));
                return true;
            }
            j += 1;
        }
        assert(!among(bases, parent@));

        // A parent that is not in the view ends the walk.
        current = items_view.get(parent);
        proof {
            steps = steps + 1;
            if steps == end {
                assert(m.contains_key(parent@) ==> false) by {
                    if m.contains_key(parent@) {
                        assert(ancestor(m, tpl@, end) == Some(parent@));
                    }
                }
            }
            if steps >= end {
                assert(ancestor(m, tpl@, end) == Some(parent@));
                assert(false);
            }
        }
    }
    proof { lemma_no_base_after_end(m, tpl@, bases, (steps + 1) as nat); }
    false
}

/// Whether some proper ancestor of template `tpl` is `base_class_tpl`.
pub fn is_of_baseclass(items_view: &StringMap<ItemView>, tpl: &str, base_class_tpl: &str) -> (r: bool)
    requires
        walk_ends(items_view@, tpl@, seq![base_class_tpl]),
    ensures
        r == has_base(items_view@, tpl@, seq![base_class_tpl]),
{
    let bases = [base_class_tpl];
    assert(bases@ == seq![base_class_tpl]);
    is_of_baseclasses(items_view, tpl, &bases)
}

/// The base classes whose items carry armor mods: headwear, vests and armor.
pub open spec fn armor_bases() -> Seq<&'static str> {
    seq![HEADWEAR, VEST, ARMOR]
}

/// Whether template `tpl` is headwear, a vest or armor, the kinds of armor that
/// can hold mods.
pub fn armor_item_can_hold_mods(items_view: &StringMap<ItemView>, tpl: &str) -> (r: bool)
    requires
        walk_ends(items_view@, tpl@, armor_bases()),
    ensures
        r == has_base(items_view@, tpl@, armor_bases()),
{
    let bases = [HEADWEAR, VEST, ARMOR];
    assert(bases@ == armor_bases());
    is_of_baseclasses(items_view, tpl, &bases)
}

/// The grid of container template `tpl` as (rows, columns): its vertical and
/// horizontal cell counts, when the view has the template and both counts.
pub open spec fn grid_dimensions(m: Map<Seq<char>, ItemView>, tpl: Seq<char>) -> Option<(i32, i32)> {
    if m.contains_key(tpl) {
        match (m[tpl].grid_cells_v, m[tpl].grid_cells_h) {
            (Some(v), Some(h)) => Some((v, h)),
            _ => None,
        }
    } else {
        None
    }
}

/// `n`, or 0 when `n` is negative.
pub open spec fn at_least_zero(n: i32) -> int {
    if n < 0 { 0 } else { n as int }
}

/// A blank grid for container template `container_tpl`: as many rows as its
/// vertical cell count, each with as many free cells as its horizontal one
/// (a negative count gives none). A template that is missing, or lacks either
/// count, is an error.
pub fn get_container_mapping(items_view: &StringMap<ItemView>, container_tpl: &str) -> (r: Result<Vec<Vec<u8>>, String>)
    ensures
        match r {
            Ok(g) => grid_dimensions(items_view@, container_tpl@) matches Some((v, h)) && {
                &&& g@.len() == at_least_zero(v)
                &&& forall|i: int| 0 <= i < g@.len() ==> (#[trigger] g@[i])@ == Seq::new(at_least_zero(h) as nat, |j: int| 0u8)
            },
            Err(e) => grid_dimensions(items_view@, container_tpl@) is None
                && e@ == "Height or width is null when trying to calculate container mapping"@,
        },
{
    let (height, width) = match get_item(items_view, container_tpl) {
        Some(template) => match (template.grid_cells_v, template.grid_cells_h) {
            (Some(height), Some(width)) => (height, width),
            _ => return Err("Height or width is null when trying to calculate container mapping".to_owned()),
        },
        None => return Err("Height or width is null when trying to calculate container mapping".to_owned()),
    };

    // Rows / columns; a negative count gives none.
    let rows: usize = if height < 0 { 0 } else { height as usize };
    let columns: usize = if width < 0 { 0 } else { width as usize };
    let ghost blank_row = Seq::new(columns as nat, |j: int| 0u8);
    let mut grid: Vec<Vec<u8>> = Vec::new();
    let mut i: usize = 0;
    while i < rows
        invariant
            i <= rows,
            grid@.len() == i,
            blank_row == Seq::new(columns as nat, |j: int| 0u8),
            forall|k: int| 0 <= k < i ==> (#[trigger] grid@[k])@ == blank_row,
        decreases rows - i,
    {
        let mut row: Vec<u8> = Vec::new();
        let mut c: usize = 0;
        while c < columns
            invariant
                c <= columns,
                row@ == Seq::new(c as nat, |j: int| 0u8),
            decreases columns - c,
        {
            row.push(0);
            c += 1;
            assert(row@ =~= Seq::new(c as nat, |j: int| 0u8));
        }
        assert(row@ =~= blank_row);
        grid.push(row);
        i += 1;
    }
    Ok(grid)
}

/// The loot-item form of `item`: a copy of it, with no drawn key.
pub fn to_loot_item(item: &Item) -> (r: SptLootItem)
    ensures
        r.item == *item,
        r.composed_key is None,
{
    SptLootItem { item: item.clone(), composed_key: None }
}

/// Item `x` sits directly in the item with id `id`.
pub open spec fn is_child_of(x: Item, id: Seq<char>) -> bool {
    opt_view(x.parent_id) == Some(id)
}

/// The items that sit directly in the item with id `id`, in list order.
pub open spec fn children(items: Seq<Item>, id: Seq<char>) -> Seq<Item>
    decreases items.len(),
{
    if items.len() == 0 {
        Seq::empty()
    } else {
        let rest = children(items.drop_last(), id);
        if is_child_of(items.last(), id) {
            rest.push(items.last())
        } else {
            rest
        }
    }
}

/// `it` followed by its descendants, `fuel` levels deep: each item's children
/// come after it, the last-listed child's subtree first.
pub open spec fn tree_order(items: Seq<Item>, it: Item, fuel: nat) -> Seq<Item>
    decreases fuel, 0nat,
{
    if fuel == 0 {
        seq![it]
    } else {
        seq![it] + forest_order(items, children(items, it.id@).reverse(), (fuel - 1) as nat)
    }
}

/// The subtrees of `roots`, `fuel` levels deep, one after the other.
pub open spec fn forest_order(items: Seq<Item>, roots: Seq<Item>, fuel: nat) -> Seq<Item>
    decreases fuel, roots.len() + 1,
{
    if roots.len() == 0 {
        Seq::empty()
    } else {
        tree_order(items, roots[0], fuel) + forest_order(items, roots.drop_first(), fuel)
    }
}

/// The items below `it` end within `fuel` levels: nothing sits in an item
/// `fuel` levels down.
pub open spec fn finite_below(items: Seq<Item>, it: Item, fuel: nat) -> bool
    decreases fuel,
{
    if fuel == 0 {
        children(items, it.id@).len() == 0
    } else {
        forall|i: int|
            0 <= i < children(items, it.id@).len() ==> finite_below(
                items,
                #[trigger] children(items, it.id@)[i],
                (fuel - 1) as nat,
            )
    }
}

/// Position of the last item with id `id`.
pub open spec fn last_with_id(items: Seq<Item>, id: Seq<char>) -> Option<int>
    decreases items.len(),
{
    if items.len() == 0 {
        None
    } else if items.last().id@ == id {
        Some(items.len() - 1)
    } else {
        last_with_id(items.drop_last(), id)
    }
}

/// The subtrees of a stack of items, worked off from the top: the top item's
/// subtree (as deep as its fuel allows) first.
pub open spec fn stack_order(items: Seq<Item>, stack: Seq<Item>, fuels: Seq<nat>) -> Seq<Item>
    decreases stack.len(),
{
    if stack.len() == 0 {
        Seq::empty()
    } else {
        tree_order(items, stack.last(), fuels.last()) + stack_order(items, stack.drop_last(), fuels.drop_last())
    }
}

/// The item with id `base_item_id` followed by everything inside it, at any
/// depth. Starting from the last item with that id, each item is followed by
/// the subtrees of its children, the last-listed child's first. Without such
/// an item the result is empty. Items that contain one of their own ancestors
/// would be walked forever, so the tree must end within as many levels as the
/// list has items.
pub fn get_item_with_children(items: &[Item], base_item_id: &str) -> (r: Vec<Item>)
    requires
        last_with_id(items@, base_item_id@) matches Some(i) ==> finite_below(items@, items@[i], items@.len()),
    ensures
        match last_with_id(items@, base_item_id@) {
            Some(i) => r@ == tree_order(items@, items@[i], items@.len()) && r@[0] == items@[i],
            None => r@.len() == 0,
        },
{
    let mut root_index: Option<usize> = None;
    let mut i: usize = 0;
    while i < items.len()
        invariant
            i <= items@.len(),
            root_index == match last_with_id(items@.take(i as int), base_item_id@) {
                Some(k) => Some(k as usize),
                None => None::<usize>,
            },
            root_index matches Some(k) ==> k < i,
        decreases items@.len() - i,
    {
        proof {
            lemma_last_with_id_bounds(items@.take(i as int), base_item_id@);
        }
        assert(items@.take(i + 1).drop_last() =~= items@.take(i as int));
        if str_eq(items[i].id.as_str(), base_item_id) {
            root_index = Some(i);
        }
        i += 1;
    }
    assert(items@.take(items@.len() as int) =~= items@);

    // Root not found, nothing to return, exit.
    let root_index = match root_index {
        Some(k) => k,
        None => return Vec::new(),
    };
    proof {
        lemma_last_with_id_bounds(items@, base_item_id@);
    }
    assert(last_with_id(items@, base_item_id@) == Some(root_index as int));

    let ghost total = tree_order(items@, items@[root_index as int], items@.len());
    let mut result: Vec<Item> = Vec::new();
    let mut stack: Vec<Item> = Vec::new();
    stack.push(items[root_index].clone());
    let ghost mut fuels: Seq<nat> = seq![items@.len()];
    proof {
        assert(stack@ == seq![items@[root_index as int]]);
        assert(stack@.drop_last() =~= Seq::<Item>::empty());
        assert(fuels.drop_last() =~= Seq::<nat>::empty());
        assert(stack_order(items@, stack@.drop_last(), fuels.drop_last()) == Seq::<Item>::empty());
        assert(stack_order(items@, stack@, fuels) == total + Seq::<Item>::empty());
        assert(result@ + stack_order(items@, stack@, fuels) =~= total);
        assert(finite_below(items@, stack@[0], fuels[0]));
    }

    while stack.len() > 0
        invariant
            total == tree_order(items@, items@[root_index as int], items@.len()),
            fuels.len() == stack@.len(),
            forall|k: int| 0 <= k < stack@.len() ==> #[trigger] finite_below(items@, stack@[k], fuels[k]),
            result@ + stack_order(items@, stack@, fuels) == total,
        decreases total.len() - result@.len(),
    {
        let ghost before = stack@;
        let ghost f = fuels.last();
        let current = stack.pop().unwrap();
        proof {
            assert(stack@ == before.drop_last());
            fuels = fuels.drop_last();
            lemma_tree_order_unfolds(items@, current, f);
        }
        let ghost rest = stack@;
        let ghost rest_fuels = fuels;

        // Push the children of `current`, in list order.
        let mut j: usize = 0;
        while j < items.len()
            invariant
                j <= items@.len(),
                stack@ == rest + children(items@.take(j as int), current.id@),
                fuels == rest_fuels + Seq::new(children(items@.take(j as int), current.id@).len(), |k: int| (f - 1) as nat),
                rest.len() == rest_fuels.len(),
            decreases items@.len() - j,
        {
            assert(items@.take(j + 1).drop_last() =~= items@.take(j as int));
            let is_child = match &items[j].parent_id {
                Some(parent_id) => str_eq(parent_id.as_str(), current.id.as_str()),
                None => false,
            };
            if is_child {
                stack.push(items[j].clone());
                proof {
                    fuels = fuels.push((f - 1) as nat);
                }
            }
            proof {
                assert(is_child == is_child_of(items@[j as int], current.id@));
                assert(items@.take(j + 1).last() == items@[j as int]);
                let ch = children(items@.take(j + 1), current.id@);
                assert(fuels =~= rest_fuels + Seq::new(ch.len(), |k: int| (f - 1) as nat));
            }
            j += 1;
        }
        proof {
            assert(items@.take(items@.len() as int) =~= items@);
            let ch = children(items@, current.id@);
            let chf = Seq::new(ch.len(), |k: int| (f - 1) as nat);
            lemma_stack_order_push_children(items@, rest, rest_fuels, ch, (f - 1) as nat);
            assert(stack@ == rest + ch);
            assert(fuels == rest_fuels + chf);
            assert forall|k: int| 0 <= k < stack@.len() implies #[trigger] finite_below(items@, stack@[k], fuels[k]) by {
                if k < rest.len() {
                    assert(stack@[k] == before[k]);
                    assert(fuels[k] == rest_fuels[k]);
                } else {
                    assert(stack@[k] == ch[k - rest.len()]);
                    assert(f > 0) by {
                        if f == 0 {
                            assert(finite_below(items@, current, f));
                        }
                    }
                    assert(finite_below(items@, current, f));
                    assert(finite_below(items@, ch[k - rest.len()], (f - 1) as nat));
                }
            }
            assert(finite_below(items@, current, f)) by {
                assert(before.last() == current);
            }
        }
        result.push(current);
        proof {
            assert(result@ + stack_order(items@, stack@, fuels) =~= total);
        }
    }
    proof {
        assert(stack_order(items@, stack@, fuels) == Seq::<Item>::empty());
        assert(result@ =~= total);
    }
    result
}

/// Position of the first item with id `id`.
pub open spec fn first_with_id(items: Seq<Item>, id: Seq<char>) -> Option<int>
    decreases items.len(),
{
    if items.len() == 0 {
        None
    } else {
        match first_with_id(items.drop_last(), id) {
            Some(k) => Some(k),
            None => if items.last().id@ == id { Some(items.len() - 1) } else { None },
        }
    }
}

/// An optional number, or 0 when absent.
pub open spec fn or_zero(n: Option<i32>) -> int {
    match n {
        Some(v) => v as int,
        None => 0,
    }
}

/// The extra size a template adds in direction `dir` (0 up, 1 down, 2 left,
/// 3 right), 0 when it names none.
pub open spec fn extra_size(v: ItemView, dir: int) -> int {
    if dir == 0 {
        or_zero(v.extra_size_up)
    } else if dir == 1 {
        or_zero(v.extra_size_down)
    } else if dir == 2 {
        or_zero(v.extra_size_left)
    } else {
        or_zero(v.extra_size_right)
    }
}

/// The template's extra size is added on top of the others rather than
/// competing with them.
pub open spec fn force_added(v: ItemView) -> bool {
    v.extra_size_force_add == Some(true)
}

/// Sum, over the items in `seq` whose template is in the view and force-adds,
/// of the extra size in direction `dir`.
pub open spec fn forced_extra(m: Map<Seq<char>, ItemView>, seq: Seq<Item>, dir: int) -> int
    decreases seq.len(),
{
    if seq.len() == 0 {
        0
    } else {
        let rest = forced_extra(m, seq.drop_last(), dir);
        let t = seq.last().template@;
        if m.contains_key(t) && force_added(m[t]) {
            rest + extra_size(m[t], dir)
        } else {
            rest
        }
    }
}

/// The largest extra size in direction `dir` among the items in `seq` whose
/// template is in the view and does not force-add, and at least 0.
pub open spec fn plain_extra(m: Map<Seq<char>, ItemView>, seq: Seq<Item>, dir: int) -> int
    decreases seq.len(),
{
    if seq.len() == 0 {
        0
    } else {
        let rest = plain_extra(m, seq.drop_last(), dir);
        let t = seq.last().template@;
        if m.contains_key(t) && !force_added(m[t]) && extra_size(m[t], dir) > rest {
            extra_size(m[t], dir)
        } else {
            rest
        }
    }
}

/// A value fits in an `i32`.
pub open spec fn fits_i32(n: int) -> bool {
    i32::MIN <= n <= i32::MAX
}

/// Every running sum `get_item_size` forms over `tree`, starting from a
/// footprint of `width` x `height`, fits in an `i32`.
pub open spec fn size_sums_fit(m: Map<Seq<char>, ItemView>, tree: Seq<Item>, width: int, height: int) -> bool {
    &&& forall|k: int, dir: int| 0 <= k <= tree.len() && 0 <= dir < 4 ==> fits_i32(#[trigger] forced_extra(m, tree.take(k), dir))
    &&& fits_i32(width + plain_extra(m, tree, 2))
    &&& fits_i32(width + plain_extra(m, tree, 2) + plain_extra(m, tree, 3))
    &&& fits_i32(width + plain_extra(m, tree, 2) + plain_extra(m, tree, 3) + forced_extra(m, tree, 2))
    &&& fits_i32(width + plain_extra(m, tree, 2) + plain_extra(m, tree, 3) + forced_extra(m, tree, 2) + forced_extra(m, tree, 3))
    &&& fits_i32(height + plain_extra(m, tree, 0))
    &&& fits_i32(height + plain_extra(m, tree, 0) + plain_extra(m, tree, 1))
    &&& fits_i32(height + plain_extra(m, tree, 0) + plain_extra(m, tree, 1) + forced_extra(m, tree, 0))
    &&& fits_i32(height + plain_extra(m, tree, 0) + plain_extra(m, tree, 1) + forced_extra(m, tree, 0) + forced_extra(m, tree, 1))
}

/// The subtree `get_item_size` measures for `root_item_id`.
pub open spec fn size_tree(items: Seq<Item>, root_item_id: Seq<char>) -> Seq<Item> {
    tree_order(items, items[last_with_id(items, root_item_id)->0], items.len())
}

/// The (width, height) `get_item_size` reports, when the root and its
/// template are known.
pub open spec fn item_size(m: Map<Seq<char>, ItemView>, items: Seq<Item>, root_item_id: Seq<char>) -> Option<(int, int)> {
    match first_with_id(items, root_item_id) {
        None => None,
        Some(i) => {
            let t = items[i].template@;
            if !m.contains_key(t) {
                None
            } else {
                let tree = size_tree(items, root_item_id);
                Some((
                    or_zero(m[t].width) + plain_extra(m, tree, 2) + plain_extra(m, tree, 3) + forced_extra(m, tree, 2) + forced_extra(m, tree, 3),
                    or_zero(m[t].height) + plain_extra(m, tree, 0) + plain_extra(m, tree, 1) + forced_extra(m, tree, 0) + forced_extra(m, tree, 1),
                ))
            }
        },
    }
}

/// The inventory footprint (width, height) of the item with id `root_item_id`
/// together with everything inside it. The root's template gives the base
/// size (0 where it names none). Across the root and its contents, the extra
/// sizes of templates that force-add are summed per direction, and of the rest
/// only the largest per direction counts; items whose template the view lacks
/// add nothing. Without such an item, or without its template, there is no
/// size.
pub fn get_item_size(items_view: &StringMap<ItemView>, items: &[Item], root_item_id: &str) -> (r: Option<(i32, i32)>)
    requires
        last_with_id(items@, root_item_id@) matches Some(i) ==> finite_below(items@, items@[i], items@.len()),
        first_with_id(items@, root_item_id@) matches Some(i) ==> {
            let t = items@[i].template@;
            items_view@.contains_key(t) ==> size_sums_fit(
                items_view@,
                size_tree(items@, root_item_id@),
                or_zero(items_view@[t].width),
                or_zero(items_view@[t].height),
            )
        },
    ensures
        match item_size(items_view@, items@, root_item_id@) {
            Some((w, h)) => r == Some((w as i32, h as i32)),
            None => r is None,
        },
{
    let ghost m = items_view@;
    // Find the first item with the root id.
    let mut root: Option<usize> = None;
    let mut i: usize = 0;
    while i < items.len()
        invariant
            i <= items@.len(),
            root == match first_with_id(items@.take(i as int), root_item_id@) {
                Some(k) => Some(k as usize),
                None => None::<usize>,
            },
        decreases items@.len() - i,
    {
        proof {
            lemma_first_with_id_bounds(items@.take(i as int), root_item_id@);
        }
        assert(items@.take(i + 1).drop_last() =~= items@.take(i as int));
        if root.is_none() && str_eq(items[i].id.as_str(), root_item_id) {
            root = Some(i);
        }
        i += 1;
    }
    assert(items@.take(items@.len() as int) =~= items@);
    proof {
        lemma_first_with_id_bounds(items@, root_item_id@);
        lemma_first_then_last(items@, root_item_id@);
    }
    let root = match root {
        Some(k) => k,
        None => return None,
    };
    let root_template = match get_item(items_view, items[root].template.as_str()) {
        Some(template) => template,
        None => return None,
    };

    let width = match root_template.width { Some(w) => w, None => 0 };
    let height = match root_template.height { Some(h) => h, None => 0 };

    let (mut size_up, mut size_down, mut size_left, mut size_right) = (0i32, 0i32, 0i32, 0i32);
    let (mut forced_up, mut forced_down, mut forced_left, mut forced_right) = (0i32, 0i32, 0i32, 0i32);

    let tree = get_item_with_children(items, root_item_id);
    let ghost t = size_tree(items@, root_item_id@);
    assert(tree@ == t);
    let mut k: usize = 0;
    while k < tree.len()
        invariant
            m == items_view@,
            tree@ == t,
            k <= t.len(),
            forall|n: int, dir: int| 0 <= n <= t.len() && 0 <= dir < 4 ==> fits_i32(#[trigger] forced_extra(m, t.take(n), dir)),
            size_up == plain_extra(m, t.take(k as int), 0),
            size_down == plain_extra(m, t.take(k as int), 1),
            size_left == plain_extra(m, t.take(k as int), 2),
            size_right == plain_extra(m, t.take(k as int), 3),
            forced_up == forced_extra(m, t.take(k as int), 0),
            forced_down == forced_extra(m, t.take(k as int), 1),
            forced_left == forced_extra(m, t.take(k as int), 2),
            forced_right == forced_extra(m, t.take(k as int), 3),
        decreases t.len() - k,
    {
        assert(t.take(k + 1).drop_last() =~= t.take(k as int));
        assert(t.take(k + 1).last() == t[k as int]);
        assert(fits_i32(forced_extra(m, t.take(k + 1), 0)));
        assert(fits_i32(forced_extra(m, t.take(k + 1), 1)));
        assert(fits_i32(forced_extra(m, t.take(k + 1), 2)));
        assert(fits_i32(forced_extra(m, t.take(k + 1), 3)));
        // A template missing from the view contributes nothing.
        match get_item(items_view, tree[k].template.as_str()) {
            Some(template) => {
                let up = match template.extra_size_up { Some(v) => v, None => 0 };
                let down = match template.extra_size_down { Some(v) => v, None => 0 };
                let left = match template.extra_size_left { Some(v) => v, None => 0 };
                let right = match template.extra_size_right { Some(v) => v, None => 0 };
                let force_add = match template.extra_size_force_add { Some(b) => b, None => false };
                if force_add {
                    forced_up = forced_up + up;
                    forced_down = forced_down + down;
                    forced_left = forced_left + left;
                    forced_right = forced_right + right;
                } else {
                    if up > size_up { size_up = up; }
                    if down > size_down { size_down = down; }
                    if left > size_left { size_left = left; }
                    if right > size_right { size_right = right; }
                }
            },
            None => {},
        }
        k += 1;
    }
    assert(t.take(t.len() as int) =~= t);

    Some((
        width + size_left + size_right + forced_left + forced_right,
        height + size_up + size_down + forced_up + forced_down,
    ))
}

/// An item's id and the id it sits in.
pub type Link = (Seq<char>, Option<Seq<char>>);

/// The links of a list of items.
pub open spec fn links(items: Seq<Item>) -> Seq<Link> {
    Seq::new(items.len(), |j: int| (items[j].id@, opt_view(items[j].parent_id)))
}

/// Two items agree on everything but their id and parent id.
pub open spec fn same_payload(a: Item, b: Item) -> bool {
    &&& a.template == b.template
    &&& a.slot_id == b.slot_id
    &&& a.desc == b.desc
    &&& a.carried == b.carried
}

/// One step of re-iding: item `k` takes id `f`, and every item that sat in
/// item `k`'s old id now sits in `f`.
pub open spec fn reid_step(prev: Seq<Link>, k: int, f: Seq<char>) -> Seq<Link> {
    Seq::new(prev.len(), |j: int| (
        if j == k { f } else { prev[j].0 },
        if prev[j].1 == Some(prev[k].0) { Some(f) } else { prev[j].1 },
    ))
}

/// The links after the first `n` items have taken the ids `fresh`, one after
/// the other.
pub open spec fn reided(links: Seq<Link>, fresh: Seq<Seq<char>>, n: nat) -> Seq<Link>
    decreases n,
{
    if n == 0 {
        links
    } else {
        reid_step(reided(links, fresh, (n - 1) as nat), n - 1, fresh[n - 1])
    }
}

/// Gives every item a fresh id, in list order, and moves every item that sat
/// in an item's old id over to that item's new one as it goes, so children
/// listed on either side of their parent stay attached. Nothing else changes.
pub fn replace_ids(items: &mut [Item], ids: &mut MongoIdGenerator)
    ensures
        final(items)@.len() == old(items)@.len(),
        forall|j: int| 0 <= j < old(items)@.len() ==> same_payload(#[trigger] final(items)@[j], old(items)@[j]),
        exists|fresh: Seq<Seq<char>>| {
            &&& fresh.len() == old(items)@.len()
            &&& handed_out(*old(ids), fresh)
            &&& links(final(items)@) == reided(links(old(items)@), fresh, fresh.len())
        },
        *final(ids) == advanced(*old(ids), old(items)@.len() as nat),
{
    let ghost start = *ids;
    let ghost initial = items@;
    let ghost mut fresh: Seq<Seq<char>> = Seq::empty();
    let mut index: usize = 0;
    while index < items.len()
        invariant
            items@.len() == initial.len(),
            index <= initial.len(),
            forall|j: int| 0 <= j < initial.len() ==> same_payload(#[trigger] items@[j], initial[j]),
            fresh.len() == index,
            handed_out(start, fresh),
            links(items@) == reided(links(initial), fresh, index as nat),
            *ids == advanced(start, index as nat),
        decreases initial.len() - index,
    {
        let ghost prev = links(items@);
        let ghost fresh_before = fresh;
        let new_id = ids.generate();
        proof {
            fresh = fresh.push(new_id@);
            assert forall|i: int| 0 <= i < fresh.len() implies #[trigger] nth_id(start, fresh[i], i as nat) by {
                if i < index {
                    assert(fresh[i] == fresh.drop_last()[i]);
                }
            }
        }
        let old_id = items[index].id.clone();
        items[index].id = new_id.clone();

        let mut j: usize = 0;
        while j < items.len()
            invariant
                items@.len() == initial.len(),
                index < initial.len(),
                j <= initial.len(),
                prev.len() == initial.len(),
                old_id@ == prev[index as int].0,
                forall|t: int| 0 <= t < initial.len() ==> same_payload(#[trigger] items@[t], initial[t]),
                forall|t: int| #![trigger items@[t]] 0 <= t < initial.len() ==> {
                    &&& items@[t].id@ == if t == index { new_id@ } else { prev[t].0 }
                    &&& opt_view(items@[t].parent_id) == if t < j && prev[t].1 == Some(prev[index as int].0) {
                        Some(new_id@)
                    } else {
                        prev[t].1
                    }
                },
            decreases initial.len() - j,
        {
            let moves = match &items[j].parent_id {
                Some(parent_id) => *parent_id == old_id,
                None => false,
            };
            if moves {
                items[j].parent_id = Some(new_id.clone());
            }
            j += 1;
        }
        proof {
            assert(links(items@) =~= reid_step(prev, index as int, new_id@));
            assert(fresh[index as int] == new_id@);
            lemma_reided_prefix(links(initial), fresh_before, fresh, index as nat);
            assert(reided(links(initial), fresh, index as nat) == prev);
            assert(reided(links(initial), fresh, (index + 1) as nat) == reid_step(prev, index as int, fresh[index as int]));
        }
        index += 1;
    }
    assert(links(items@) == reided(links(initial), fresh, fresh.len()));
}

/// Item `j` of the list after the root id `links[0].0` moved to `new_id`:
/// items with the root's id take `new_id`, items that sat in it now sit in
/// `new_id`, and nothing else changes.
pub open spec fn remapped(links: Seq<Link>, new_id: Seq<char>) -> Seq<Link> {
    Seq::new(links.len(), |j: int| if links[j].0 == links[0].0 {
        (new_id, links[j].1)
    } else {
        (links[j].0, if links[j].1 == Some(links[0].0) { Some(new_id) } else { links[j].1 })
    })
}

/// Gives the root (the first item) a fresh id and moves the items that sat in
/// it over to the new id; items further down keep their ids and parents. Any
/// other item with the root's id takes the new id too. Returns the new id; an
/// empty list is left as it is, and the id is still drawn.
pub fn remap_root_item_id(items: &mut [Item], ids: &mut MongoIdGenerator) -> (new_id: String)
    ensures
        nth_id(*old(ids), new_id@, 0),
        *final(ids) == advanced(*old(ids), 1),
        final(items)@.len() == old(items)@.len(),
        forall|j: int| 0 <= j < old(items)@.len() ==> same_payload(#[trigger] final(items)@[j], old(items)@[j]),
        old(items)@.len() > 0 ==> links(final(items)@) == remapped(links(old(items)@), new_id@),
        old(items)@.len() == 0 ==> final(items)@ == old(items)@,
{
    let ghost start = *ids;
    let new_id = ids.generate();
    proof {
        assert(advance(start.counter, 0) == start.counter);
        assert(advance(start.counter, 1) == next_counter(start.counter));
        let ts = choose|ts: u32| new_id@ == #[trigger] id_text(ts, start.machine, start.process_id, start.counter);
        assert(new_id@ == id_text(ts, start.machine, start.process_id, advance(start.counter, 0)));
    }
    if items.len() == 0 {
        return new_id;
    }
    let ghost initial = items@;
    let root_item_existing_id = items[0].id.clone();

    let mut j: usize = 0;
    while j < items.len()
        invariant
            items@.len() == initial.len(),
            initial.len() > 0,
            j <= initial.len(),
            root_item_existing_id@ == initial[0].id@,
            forall|t: int| 0 <= t < initial.len() ==> same_payload(#[trigger] items@[t], initial[t]),
            forall|t: int| #![trigger items@[t]] 0 <= t < initial.len() ==> (items@[t].id@, opt_view(items@[t].parent_id))
                == if t < j { remapped(links(initial), new_id@)[t] } else { links(initial)[t] },
        decreases initial.len() - j,
    {
        if items[j].id == root_item_existing_id {
            items[j].id = new_id.clone();
        } else {
            let moves = match &items[j].parent_id {
                Some(parent_id) => *parent_id == root_item_existing_id,
                None => false,
            };
            if moves {
                items[j].parent_id = Some(new_id.clone());
            }
        }
        j += 1;
    }
    assert(links(items@) =~= remapped(links(initial), new_id@));
    new_id
}

/// Looks `key` up in `m`, handing it the next fresh id when it has none yet.
pub open spec fn mint(m: Map<Seq<char>, Seq<char>>, used: nat, key: Seq<char>, fresh: Seq<Seq<char>>) -> (Map<Seq<char>, Seq<char>>, nat) {
    if m.contains_key(key) {
        (m, used)
    } else {
        (m.insert(key, fresh[used as int]), used + 1)
    }
}

/// The id mapping of a reparenting after the first `k` items, and how many
/// fresh ids it has taken: the old root id maps to the new root's id, and each
/// item's id and then its parent id, in list order, take the next fresh id the
/// first time they turn up.
pub open spec fn reparent_map(
    links: Seq<Link>,
    root_old: Seq<char>,
    root_new: Seq<char>,
    fresh: Seq<Seq<char>>,
    k: nat,
) -> (Map<Seq<char>, Seq<char>>, nat)
    decreases k,
{
    if k == 0 {
        (Map::empty().insert(root_old, root_new), 0)
    } else {
        let prev = reparent_map(links, root_old, root_new, fresh, (k - 1) as nat);
        let l = links[k - 1];
        let after_id = mint(prev.0, prev.1, l.0, fresh);
        match l.1 {
            Some(p) => mint(after_id.0, after_id.1, p, fresh),
            None => after_id,
        }
    }
}

/// A link moved through an id mapping.
pub open spec fn mapped_link(m: Map<Seq<char>, Seq<char>>, l: Link) -> Link {
    (m[l.0], match l.1 {
        Some(p) => Some(m[p]),
        None => None,
    })
}

/// `later` keeps every key of `earlier`, under the same id.
pub open spec fn extends(earlier: Map<Seq<char>, Seq<char>>, later: Map<Seq<char>, Seq<char>>) -> bool {
    forall|k: Seq<char>| #[trigger] earlier.contains_key(k) ==> later.contains_key(k) && later[k] == earlier[k]
}

/// Moves a whole item tree under `root_item`: every id in the list, and every
/// parent id, is mapped to a new one — the first item's id to `root_item`'s id,
/// every other id to a fresh id the first time it turns up (a parent outside
/// the list included) — and then the first item is replaced by `root_item`
/// itself. Every item after the first thus still sits in the item it sat in
/// before, under that item's new id. Returns a copy of the list as it ends
/// up; an empty list gives an empty result.
pub fn reparent_item_and_children(root_item: &Item, item_with_children: &mut [Item], ids: &mut MongoIdGenerator) -> (r: Vec<Item>)
    ensures
        old(item_with_children)@.len() == 0 ==> r@.len() == 0 && final(item_with_children)@ == old(item_with_children)@
            && *final(ids) == *old(ids),
        old(item_with_children)@.len() > 0 ==> exists|fresh: Seq<Seq<char>>| #![trigger handed_out(*old(ids), fresh)] {
            let old_items = old(item_with_children)@;
            let mapping = reparent_map(links(old_items), old_items[0].id@, root_item.id@, fresh, old_items.len());
            &&& fresh.len() == mapping.1
            &&& handed_out(*old(ids), fresh)
            &&& *final(ids) == advanced(*old(ids), mapping.1)
            &&& r@ == final(item_with_children)@
            &&& r@.len() == old_items.len()
            &&& r@[0] == *root_item
            &&& forall|t: int| 1 <= t < old_items.len() ==> same_payload(#[trigger] r@[t], old_items[t])
            &&& forall|t: int| 1 <= t < old_items.len() ==> (#[trigger] links(r@)[t]) == mapped_link(mapping.0, links(old_items)[t])
            &&& forall|t: int, u: int|
                1 <= t < old_items.len() && 0 <= u < old_items.len()
                    && #[trigger] links(old_items)[t].1 == Some(#[trigger] links(old_items)[u].0)
                    ==> links(r@)[t].1 == Some(links(r@)[u].0)
            &&& forall|t: int| 1 <= t < old_items.len() ==> (#[trigger] r@[t]).id@ == root_item.id@
                || exists|i: int| 0 <= i < fresh.len() && fresh[i] == r@[t].id@
        },
{
    let ghost start = *ids;
    if item_with_children.len() == 0 {
        return Vec::new();
    }
    let ghost initial = item_with_children@;
    let ghost old_links = links(initial);
    let ghost mut fresh: Seq<Seq<char>> = Seq::empty();

    let old_root_id = item_with_children[0].id.clone();
    let mut id_mappings: StringMap<String> = StringMap::new();
    id_mappings.insert(old_root_id, root_item.id.clone());

    let mut k: usize = 0;
    proof {
        assert(id_mappings@ == Map::<Seq<char>, String>::empty().insert(initial[0].id@, root_item.id));
    }
    while k < item_with_children.len()
        invariant
            item_with_children@.len() == initial.len(),
            initial.len() > 0,
            k <= initial.len(),
            old_links == links(initial),
            forall|t: int| 0 <= t < initial.len() ==> same_payload(#[trigger] item_with_children@[t], initial[t]),
            ({
                let st = reparent_map(old_links, initial[0].id@, root_item.id@, fresh, k as nat);
                &&& fresh.len() == st.1
                &&& handed_out(start, fresh)
                &&& *ids == advanced(start, st.1)
                &&& forall|key: Seq<char>| #[trigger] id_mappings@.contains_key(key) == st.0.contains_key(key)
                &&& forall|key: Seq<char>| st.0.contains_key(key) ==> (#[trigger] id_mappings@[key])@ == st.0[key]
                &&& forall|t: int| #![trigger old_links[t]] 0 <= t < k ==> st.0.contains_key(old_links[t].0) && (old_links[t].1 matches Some(p) ==> st.0.contains_key(p))
                &&& forall|t: int| #![trigger item_with_children@[t]] 0 <= t < k ==> (item_with_children@[t].id@, opt_view(item_with_children@[t].parent_id)) == mapped_link(st.0, old_links[t])
                &&& forall|t: int| #![trigger item_with_children@[t]] k <= t < initial.len() ==> item_with_children@[t] == initial[t]
            }),
        decreases initial.len() - k,
    {
        let ghost st0 = reparent_map(old_links, initial[0].id@, root_item.id@, fresh, k as nat);
        let ghost fresh0 = fresh;
        let ghost items0 = item_with_children@;
        assert(items0[k as int] == initial[k as int]);

        let item_id = item_with_children[k].id.clone();
        let ghost ids0 = *ids;
        let new_id = map_or_mint(&mut id_mappings, item_id.as_str(), ids);
        proof {
            if !st0.0.contains_key(item_id@) {
                fresh = fresh.push(new_id@);
                lemma_advanced_twice(start, st0.1);
                lemma_nth_id_shift(start, new_id@, st0.1);
                assert forall|i: int| 0 <= i < fresh.len() implies #[trigger] nth_id(start, fresh[i], i as nat) by {
                    if i < fresh0.len() {
                        assert(fresh[i] == fresh0[i]);
                    }
                }
            }
        }
        let ghost st1 = mint(st0.0, st0.1, old_links[k as int].0, fresh);
        let ghost fresh1 = fresh;
        assert(st1.0.contains_key(old_links[k as int].0) && id_mappings@[old_links[k as int].0] == new_id);

        let new_parent = match &item_with_children[k].parent_id {
            Some(parent_id) => {
                let mapped = map_or_mint(&mut id_mappings, parent_id.as_str(), ids);
                proof {
                    if !st1.0.contains_key(parent_id@) {
                        fresh = fresh.push(mapped@);
                        lemma_advanced_twice(start, st1.1);
                        lemma_nth_id_shift(start, mapped@, st1.1);
                        assert forall|i: int| 0 <= i < fresh.len() implies #[trigger] nth_id(start, fresh[i], i as nat) by {
                            if i < fresh1.len() {
                                assert(fresh[i] == fresh1[i]);
                            }
                        }
                    }
                }
                Some(mapped)
            },
            None => None,
        };
        item_with_children[k].id = new_id;
        item_with_children[k].parent_id = new_parent;

        proof {
            let st2 = reparent_map(old_links, initial[0].id@, root_item.id@, fresh, (k + 1) as nat);
            lemma_reparent_map_prefix(old_links, initial[0].id@, root_item.id@, fresh0, fresh, k as nat);
            assert(reparent_map(old_links, initial[0].id@, root_item.id@, fresh, k as nat) == st0);
            assert(mint(st0.0, st0.1, old_links[k as int].0, fresh) == st1) by {
                if !st0.0.contains_key(old_links[k as int].0) {
                    assert(fresh[st0.1 as int] == fresh1[st0.1 as int]);
                }
            }
            assert(extends(st0.0, st1.0));
            assert(extends(st1.0, st2.0));
            assert(extends(st0.0, st2.0));
            assert forall|t: int| #![trigger item_with_children@[t]] 0 <= t < k + 1 implies (item_with_children@[t].id@, opt_view(item_with_children@[t].parent_id)) == mapped_link(st2.0, old_links[t]) by {
                if t < k {
                    assert(items0[t] == item_with_children@[t]);
                    assert(st0.0.contains_key(old_links[t].0));
                }
            }
        }
        k += 1;
    }

    // Force the item's details into the first position.
    item_with_children[0] = root_item.clone();

    let mut result: Vec<Item> = Vec::new();
    let mut t: usize = 0;
    while t < item_with_children.len()
        invariant
            t <= item_with_children@.len(),
            result@ == item_with_children@.take(t as int),
        decreases item_with_children@.len() - t,
    {
        result.push(item_with_children[t].clone());
        assert(result@ =~= item_with_children@.take(t + 1));
        t += 1;
    }
    assert(result@ =~= item_with_children@);
    proof {
        let n = initial.len() as nat;
        let st = reparent_map(old_links, initial[0].id@, root_item.id@, fresh, n);
        lemma_reparent_map_grows(old_links, initial[0].id@, root_item.id@, fresh, 0, n);
        assert(reparent_map(old_links, initial[0].id@, root_item.id@, fresh, 0).0.contains_key(initial[0].id@));
        assert(st.0[initial[0].id@] == root_item.id@);
        lemma_reparent_map_values(old_links, initial[0].id@, root_item.id@, fresh, n);
        assert forall|t: int| 1 <= t < initial.len() implies (#[trigger] result@[t]).id@ == root_item.id@
            || exists|i: int| 0 <= i < fresh.len() && fresh[i] == result@[t].id@ by {
            assert(result@[t] == item_with_children@[t]);
            assert(st.0.contains_key(old_links[t].0));
        }
        assert forall|t: int, u: int|
            1 <= t < initial.len() && 0 <= u < initial.len()
                && #[trigger] old_links[t].1 == Some(#[trigger] old_links[u].0)
            implies links(result@)[t].1 == Some(links(result@)[u].0) by {
            assert(result@[t] == item_with_children@[t]);
            assert(result@[u] == item_with_children@[u]);
            if u == 0 {
                assert(old_links[0].0 == initial[0].id@);
            }
        }
    }
    result
}

/// The id mapped to `key`, minting a fresh one when `key` has none yet.
fn map_or_mint(id_mappings: &mut StringMap<String>, key: &str, ids: &mut MongoIdGenerator) -> (r: String)
    ensures
        old(id_mappings)@.contains_key(key@) ==> {
            &&& r == old(id_mappings)@[key@]
            &&& final(id_mappings)@ == old(id_mappings)@
            &&& *final(ids) == *old(ids)
        },
        !old(id_mappings)@.contains_key(key@) ==> {
            &&& nth_id(*old(ids), r@, 0)
            &&& *final(ids) == advanced(*old(ids), 1)
            &&& final(id_mappings)@ == old(id_mappings)@.insert(key@, r)
        },
{
    match id_mappings.get(key) {
        Some(mapped) => mapped.clone(),
        None => {
            let ghost start = *ids;
            let minted = ids.generate();
            proof {
                assert(advance(start.counter, 0) == start.counter);
                assert(advance(start.counter, 1) == next_counter(start.counter));
                let ts = choose|ts: u32| minted@ == #[trigger] id_text(ts, start.machine, start.process_id, start.counter);
                assert(minted@ == id_text(ts, start.machine, start.process_id, advance(start.counter, 0)));
            }
            id_mappings.insert(key.to_owned(), minted.clone());
            minted
        },
    }
}

/// Advancing by `n` and then by one is advancing by `n + 1`.
proof fn lemma_advanced_twice(g: MongoIdGenerator, n: nat)
    ensures
        advanced(advanced(g, n), 1) == advanced(g, n + 1),
{
    assert(advance(advance(g.counter, n), 1) == next_counter(advance(advance(g.counter, n), 0)));
}

/// The first id of a generator advanced by `n` is the `n`-th id of the initial.
proof fn lemma_nth_id_shift(g: MongoIdGenerator, id: Seq<char>, n: nat)
    requires
        nth_id(advanced(g, n), id, 0),
    ensures
        nth_id(g, id, n),
{
    let a = advanced(g, n);
    let ts = choose|ts: u32| id == #[trigger] id_text(ts, a.machine, a.process_id, advance(a.counter, 0));
    assert(id == id_text(ts, g.machine, g.process_id, advance(g.counter, n)));
}

/// Minting never takes back or changes an id, and takes at most one fresh id.
proof fn lemma_mint_grows(m: Map<Seq<char>, Seq<char>>, used: nat, key: Seq<char>, fresh: Seq<Seq<char>>)
    ensures
        extends(m, mint(m, used, key, fresh).0),
        mint(m, used, key, fresh).0.contains_key(key),
        used <= mint(m, used, key, fresh).1 <= used + 1,
{
}


/// Every id a reparenting mapping hands out is the new root's id or one of
/// the fresh ids it has taken.
proof fn lemma_reparent_map_values(
    links: Seq<Link>,
    root_old: Seq<char>,
    root_new: Seq<char>,
    fresh: Seq<Seq<char>>,
    k: nat,
)
    ensures
        forall|key: Seq<char>| #[trigger] reparent_map(links, root_old, root_new, fresh, k).0.contains_key(key) ==> {
            let v = reparent_map(links, root_old, root_new, fresh, k).0[key];
            v == root_new || exists|i: int| 0 <= i < reparent_map(links, root_old, root_new, fresh, k).1 && fresh[i] == v
        },
    decreases k,
{
    if k > 0 {
        let km = (k - 1) as nat;
        lemma_reparent_map_values(links, root_old, root_new, fresh, km);
        let prev = reparent_map(links, root_old, root_new, fresh, km);
        let l = links[k - 1];
        let a = mint(prev.0, prev.1, l.0, fresh);
        let st = reparent_map(links, root_old, root_new, fresh, k);
        assert forall|key: Seq<char>| #[trigger] a.0.contains_key(key) implies {
            let v = a.0[key];
            v == root_new || exists|i: int| 0 <= i < a.1 && fresh[i] == v
        } by {
            if prev.0.contains_key(key) && key != l.0 {
                assert(a.0[key] == prev.0[key]);
            } else if prev.0.contains_key(key) {
            } else {
                assert(a.0[key] == fresh[prev.1 as int]);
            }
        }
        assert forall|key: Seq<char>| #[trigger] st.0.contains_key(key) implies {
            let v = st.0[key];
            v == root_new || exists|i: int| 0 <= i < st.1 && fresh[i] == v
        } by {
            match l.1 {
                Some(p) => {
                    if a.0.contains_key(key) && (key != p || a.0.contains_key(p)) {
                        assert(st.0[key] == a.0[key]);
                        if a.0[key] != root_new {
                            let i = choose|i: int| 0 <= i < a.1 && fresh[i] == a.0[key];
                            assert(i < st.1);
                        }
                    } else {
                        assert(st.0[key] == fresh[a.1 as int]);
                    }
                },
                None => {},
            }
        }
    }
}

/// A reparenting mapping only grows, and its count of fresh ids only rises.
proof fn lemma_reparent_map_grows(
    links: Seq<Link>,
    root_old: Seq<char>,
    root_new: Seq<char>,
    fresh: Seq<Seq<char>>,
    k: nat,
    later: nat,
)
    requires
        k <= later,
    ensures
        extends(
            reparent_map(links, root_old, root_new, fresh, k).0,
            reparent_map(links, root_old, root_new, fresh, later).0,
        ),
        reparent_map(links, root_old, root_new, fresh, k).1 <= reparent_map(links, root_old, root_new, fresh, later).1,
    decreases later - k,
{
    if k < later {
        lemma_reparent_map_grows(links, root_old, root_new, fresh, k, (later - 1) as nat);
        let prev = reparent_map(links, root_old, root_new, fresh, (later - 1) as nat);
        let l = links[later - 1];
        let a = mint(prev.0, prev.1, l.0, fresh);
        lemma_mint_grows(prev.0, prev.1, l.0, fresh);
        lemma_mint_grows(a.0, a.1, l.1->0, fresh);
    }
}

/// A reparenting mapping after `k` items only reads the fresh ids it takes.
proof fn lemma_reparent_map_prefix(
    links: Seq<Link>,
    root_old: Seq<char>,
    root_new: Seq<char>,
    a: Seq<Seq<char>>,
    b: Seq<Seq<char>>,
    k: nat,
)
    requires
        reparent_map(links, root_old, root_new, a, k).1 <= a.len(),
        reparent_map(links, root_old, root_new, a, k).1 <= b.len(),
        forall|i: int| 0 <= i < reparent_map(links, root_old, root_new, a, k).1 ==> a[i] == b[i],
    ensures
        reparent_map(links, root_old, root_new, a, k) == reparent_map(links, root_old, root_new, b, k),
    decreases k,
{
    if k > 0 {
        lemma_reparent_map_grows(links, root_old, root_new, a, (k - 1) as nat, k);
        lemma_reparent_map_prefix(links, root_old, root_new, a, b, (k - 1) as nat);
        let prev = reparent_map(links, root_old, root_new, a, (k - 1) as nat);
        let l = links[k - 1];
        let ma = mint(prev.0, prev.1, l.0, a);
        lemma_mint_grows(prev.0, prev.1, l.0, a);
        lemma_mint_grows(ma.0, ma.1, l.1->0, a);
        assert(mint(prev.0, prev.1, l.0, b) == ma) by {
            if !prev.0.contains_key(l.0) {
                assert(a[prev.1 as int] == b[prev.1 as int]);
            }
        }
        if l.1 is Some {
            if !ma.0.contains_key(l.1->0) {
                assert(a[ma.1 as int] == b[ma.1 as int]);
            }
        }
    }
}

/// Re-iding the first `n` items only looks at the first `n` fresh ids.
proof fn lemma_reided_prefix(links: Seq<Link>, a: Seq<Seq<char>>, b: Seq<Seq<char>>, n: nat)
    requires
        n <= a.len(),
        n <= b.len(),
        forall|i: int| 0 <= i < n ==> a[i] == b[i],
    ensures
        reided(links, a, n) == reided(links, b, n),
    decreases n,
{
    if n > 0 {
        lemma_reided_prefix(links, a, b, (n - 1) as nat);
    }
}

/// The first item with an id lies inside the list and has that id.
proof fn lemma_first_with_id_bounds(items: Seq<Item>, id: Seq<char>)
    ensures
        first_with_id(items, id) matches Some(k) ==> 0 <= k < items.len() && items[k].id@ == id,
    decreases items.len(),
{
    if items.len() > 0 {
        lemma_first_with_id_bounds(items.drop_last(), id);
    }
}

/// A list with a first item of some id has a last one too.
proof fn lemma_first_then_last(items: Seq<Item>, id: Seq<char>)
    ensures
        first_with_id(items, id) is Some ==> last_with_id(items, id) is Some,
    decreases items.len(),
{
    if items.len() > 0 {
        lemma_first_then_last(items.drop_last(), id);
    }
}

/// The last item with an id lies inside the list and has that id.
proof fn lemma_last_with_id_bounds(items: Seq<Item>, id: Seq<char>)
    ensures
        last_with_id(items, id) matches Some(k) ==> 0 <= k < items.len() && items[k].id@ == id,
    decreases items.len(),
{
    if items.len() > 0 {
        lemma_last_with_id_bounds(items.drop_last(), id);
    }
}

/// An item's subtree is the item followed by its children's subtrees, the
/// last-listed child's first.
proof fn lemma_tree_order_unfolds(items: Seq<Item>, it: Item, fuel: nat)
    requires
        finite_below(items, it, fuel),
    ensures
        tree_order(items, it, fuel) == seq![it] + forest_order(
            items,
            children(items, it.id@).reverse(),
            (fuel - 1) as nat,
        ),
{
    if fuel == 0 {
        assert(children(items, it.id@).reverse().len() == 0);
        assert(seq![it] + forest_order(items, children(items, it.id@).reverse(), 0) =~= seq![it]);
    }
}

/// Pushing a list of children onto a stack puts their subtrees, last-listed
/// first, in front of what the stack held.
proof fn lemma_stack_order_push_children(
    items: Seq<Item>,
    stack: Seq<Item>,
    fuels: Seq<nat>,
    ch: Seq<Item>,
    fuel: nat,
)
    requires
        stack.len() == fuels.len(),
    ensures
        stack_order(items, stack + ch, fuels + Seq::new(ch.len(), |k: int| fuel)) == forest_order(
            items,
            ch.reverse(),
            fuel,
        ) + stack_order(items, stack, fuels),
    decreases ch.len(),
{
    let chf = Seq::new(ch.len(), |k: int| fuel);
    if ch.len() == 0 {
        assert(stack + ch =~= stack);
        assert(fuels + chf =~= fuels);
        assert(forest_order(items, ch.reverse(), fuel) + stack_order(items, stack, fuels) =~= stack_order(items, stack, fuels));
    } else {
        let shorter = ch.drop_last();
        lemma_stack_order_push_children(items, stack, fuels, shorter, fuel);
        assert((stack + ch).drop_last() =~= stack + shorter);
        assert((fuels + chf).drop_last() =~= fuels + Seq::new(shorter.len(), |k: int| fuel));
        assert((stack + ch).last() == ch.last());
        assert((fuels + chf).last() == fuel);
        assert(ch.reverse()[0] == ch.last());
        assert(ch.reverse().drop_first() =~= shorter.reverse());
        assert(stack_order(items, stack + ch, fuels + chf) =~= forest_order(items, ch.reverse(), fuel) + stack_order(items, stack, fuels));
    }
}

/// Once an ancestor is missing, every one further up is missing too.
proof fn lemma_ancestor_stays_absent(m: Map<Seq<char>, ItemView>, k: Seq<char>, n: nat, later: nat)
    requires
        ancestor(m, k, n) is None,
        n <= later,
    ensures
        ancestor(m, k, later) is None,
    decreases later - n,
{
    if n < later {
        lemma_ancestor_stays_absent(m, k, n, (later - 1) as nat);
    }
}

/// No proper ancestor from `n` upwards exists once the one at `n` is missing,
/// so none of them is a base class.
proof fn lemma_no_base_after_end(m: Map<Seq<char>, ItemView>, k: Seq<char>, bases: Seq<&str>, n: nat)
    requires
        ancestor(m, k, n) is None,
        forall|i: nat| 1 <= i < n ==> !(#[trigger] ancestor(m, k, i) matches Some(a) && among(bases, a)),
    ensures
        !has_base(m, k, bases),
{
    assert forall|i: nat| i >= 1 implies !(#[trigger] ancestor(m, k, i) matches Some(a) && among(bases, a)) by {
        if i >= n {
            lemma_ancestor_stays_absent(m, k, n, i);
        }
    }
}

/// Walking up finds the first base class no later than the end of the walk.
proof fn lemma_no_base_before_end(m: Map<Seq<char>, ItemView>, k: Seq<char>, bases: Seq<&str>, end: nat)
    requires
        1 <= end,
        ancestor(m, k, end) is None || among(bases, ancestor(m, k, end)->0),
    ensures
        ancestor(m, k, 0) is Some,
{
}


/// Climbing `n` links from `k` reaches `b`; climbing `j` more is climbing `j`
/// from `b`.
proof fn lemma_ancestor_compose(m: Map<Seq<char>, ItemView>, k: Seq<char>, n: nat, b: Seq<char>, j: nat)
    requires
        ancestor(m, k, n) == Some(b),
    ensures
        ancestor(m, k, n + j) == ancestor(m, b, j),
    decreases j,
{
    if j > 0 {
        let jm = (j - 1) as nat;
        lemma_ancestor_compose(m, k, n, b, jm);
        assert(ancestor(m, k, n + j) == match ancestor(m, k, n + jm) {
            Some(a) => parent_of(m, a),
            None => None,
        });
        assert(ancestor(m, b, j) == match ancestor(m, b, jm) {
            Some(a) => parent_of(m, a),
            None => None,
        });
    }
}

/// A chain that climbs from `k` back to `k` never ends.
proof fn lemma_cycle_never_ends(m: Map<Seq<char>, ItemView>, k: Seq<char>, i: nat, n: nat)
    requires
        i >= 1,
        ancestor(m, k, i) == Some(k),
    ensures
        ancestor(m, k, n) is Some,
    decreases n,
{
    if n < i {
        if ancestor(m, k, n) is None {
            lemma_ancestor_stays_absent(m, k, n, i);
        }
    } else {
        let rest = (n - i) as nat;
        lemma_cycle_never_ends(m, k, i, rest);
        lemma_ancestor_compose(m, k, i, k, rest);
    }
}

/// Base classes are transitive: when `b` is a base class of `a` and `c` is
/// one of `b`, then `c` is a base class of `a`.
pub proof fn lemma_base_class_is_transitive(m: Map<Seq<char>, ItemView>, a: Seq<char>, b: &str, c: &str)
    requires
        has_base(m, a, seq![b]),
        has_base(m, b@, seq![c]),
    ensures
        has_base(m, a, seq![c]),
{
    let n1 = choose|n: nat| n >= 1 && (#[trigger] ancestor(m, a, n) matches Some(x) && among(seq![b], x));
    let n2 = choose|n: nat| n >= 1 && (#[trigger] ancestor(m, b@, n) matches Some(x) && among(seq![c], x));
    let j1 = choose|j: int| 0 <= j < 1 && (#[trigger] seq![b][j])@ == ancestor(m, a, n1)->0;
    assert(j1 == 0);
    assert(ancestor(m, a, n1) == Some(b@));
    lemma_ancestor_compose(m, a, n1, b@, n2);
    assert(ancestor(m, a, n1 + n2) matches Some(x) && among(seq![c], x));
}

/// A template is never its own base class, as long as its parent chain comes
/// to an end.
pub proof fn lemma_not_its_own_base_class(m: Map<Seq<char>, ItemView>, tpl: &str)
    requires
        exists|n: nat| #[trigger] ancestor(m, tpl@, n) is None,
    ensures
        !has_base(m, tpl@, seq![tpl]),
{
    if has_base(m, tpl@, seq![tpl]) {
        let i = choose|n: nat| n >= 1 && (#[trigger] ancestor(m, tpl@, n) matches Some(x) && among(seq![tpl], x));
        let j = choose|j: int| 0 <= j < 1 && (#[trigger] seq![tpl][j])@ == ancestor(m, tpl@, i)->0;
        assert(j == 0);
        let end = choose|n: nat| #[trigger] ancestor(m, tpl@, n) is None;
        lemma_cycle_never_ends(m, tpl@, i, end);
    }
}


/// The links after `n` re-iding steps, item by item: the first `n` items carry
/// their fresh ids, the rest their old ones; an item that sat in one of the
/// first `n` items now sits in that item's fresh id, any other keeps its parent.
proof fn lemma_reided_shape(old: Seq<Link>, fresh: Seq<Seq<char>>, n: nat)
    requires
        n <= old.len(),
        fresh.len() == old.len(),
        forall|i: int, j: int| 0 <= i < j < old.len() ==> old[i].0 != old[j].0,
        forall|i: int, j: int| 0 <= i < old.len() && 0 <= j < old.len() ==> fresh[i] != old[j].0,
    ensures
        reided(old, fresh, n).len() == old.len(),
        forall|j: int| #![trigger reided(old, fresh, n)[j]]
            0 <= j < old.len() ==> reided(old, fresh, n)[j].0 == if j < n { fresh[j] } else { old[j].0 },
        forall|t: int, u: int| #![trigger reided(old, fresh, n)[t], old[u]]
            0 <= t < old.len() && 0 <= u < n && old[t].1 == Some(old[u].0) ==> reided(old, fresh, n)[t].1 == Some(fresh[u]),
        forall|t: int| #![trigger reided(old, fresh, n)[t]]
            0 <= t < old.len() && (forall|u: int| 0 <= u < n ==> old[t].1 != Some(#[trigger] old[u].0))
                ==> reided(old, fresh, n)[t].1 == old[t].1,
    decreases n,
{
    if n > 0 {
        let k = (n - 1) as nat;
        lemma_reided_shape(old, fresh, k);
        let prev = reided(old, fresh, k);
        let now = reided(old, fresh, n);
        assert(now == reid_step(prev, k as int, fresh[k as int]));
        assert(prev[k as int].0 == old[k as int].0);
        assert forall|t: int, u: int| #![trigger now[t], old[u]]
            0 <= t < old.len() && 0 <= u < n && old[t].1 == Some(old[u].0) implies now[t].1 == Some(fresh[u]) by {
            if u < k {
                assert(prev[t].1 == Some(fresh[u]));
                assert(fresh[u] != old[k as int].0);
            } else {
                assert forall|v: int| 0 <= v < k implies old[t].1 != Some(#[trigger] old[v].0) by {
                    assert(old[v].0 != old[k as int].0);
                }
                assert(prev[t].1 == old[t].1);
            }
        }
        assert forall|t: int| #![trigger now[t]]
            0 <= t < old.len() && (forall|u: int| 0 <= u < n ==> old[t].1 != Some(#[trigger] old[u].0))
            implies now[t].1 == old[t].1 by {
            assert forall|v: int| 0 <= v < k implies old[t].1 != Some(#[trigger] old[v].0) by {
                assert(old[t].1 != Some(old[v].0));
            }
            assert(prev[t].1 == old[t].1);
            assert(old[t].1 != Some(old[k as int].0));
        }
    }
}

/// Re-iding keeps every item in the item it sat in. When the old ids are all
/// different and none of the fresh ids is one of them, then afterwards every
/// item carries its fresh id, an item that sat in another item of the list sits
/// in that item's new id, and an item whose parent is not in the list keeps
/// that parent.
pub proof fn lemma_reiding_keeps_the_hierarchy(old: Seq<Link>, fresh: Seq<Seq<char>>)
    requires
        fresh.len() == old.len(),
        forall|i: int, j: int| 0 <= i < j < old.len() ==> old[i].0 != old[j].0,
        forall|i: int, j: int| 0 <= i < old.len() && 0 <= j < old.len() ==> fresh[i] != old[j].0,
    ensures
        reided(old, fresh, fresh.len()).len() == old.len(),
        forall|j: int| 0 <= j < old.len() ==> (#[trigger] reided(old, fresh, fresh.len())[j]).0 == fresh[j],
        forall|t: int, u: int| #![trigger reided(old, fresh, fresh.len())[t], old[u]]
            0 <= t < old.len() && 0 <= u < old.len() && old[t].1 == Some(old[u].0)
                ==> reided(old, fresh, fresh.len())[t].1 == Some(reided(old, fresh, fresh.len())[u].0),
        forall|t: int| #![trigger reided(old, fresh, fresh.len())[t]]
            0 <= t < old.len() && (forall|u: int| 0 <= u < old.len() ==> old[t].1 != Some(#[trigger] old[u].0))
                ==> reided(old, fresh, fresh.len())[t].1 == old[t].1,
{
    lemma_reided_shape(old, fresh, fresh.len());
    let new = reided(old, fresh, fresh.len());
    assert forall|t: int, u: int| #![trigger new[t], old[u]]
        0 <= t < old.len() && 0 <= u < old.len() && old[t].1 == Some(old[u].0) implies new[t].1 == Some(new[u].0) by {
        assert(new[u].0 == fresh[u]);
    }
}


/// Item `k` of `walk` sits in some item listed before it.
pub open spec fn sits_in_earlier(walk: Seq<Item>, k: int) -> bool {
    exists|j: int| 0 <= j < k && is_child_of(walk[k], (#[trigger] walk[j]).id@)
}

/// Every item among the children of `id` sits in `id`.
proof fn lemma_children_sit_in(items: Seq<Item>, id: Seq<char>)
    ensures
        forall|i: int| 0 <= i < children(items, id).len() ==> is_child_of(#[trigger] children(items, id)[i], id),
    decreases items.len(),
{
    if items.len() > 0 {
        let rest = children(items.drop_last(), id);
        lemma_children_sit_in(items.drop_last(), id);
        assert forall|i: int| 0 <= i < children(items, id).len() implies is_child_of(#[trigger] children(items, id)[i], id) by {
            if is_child_of(items.last(), id) {
                assert(children(items, id) == rest.push(items.last()));
                if i < rest.len() {
                    assert(children(items, id)[i] == rest[i]);
                }
            } else {
                assert(children(items, id) == rest);
            }
        }
    }
}

/// In `p` followed by the subtrees of `roots`, all of them sitting in `p`,
/// every item after `p` sits in an item listed before it.
proof fn lemma_forest_walk_sits(items: Seq<Item>, p: Item, roots: Seq<Item>, fuel: nat)
    requires
        forall|i: int| 0 <= i < roots.len() ==> is_child_of(#[trigger] roots[i], p.id@),
    ensures
        forall|k: int| 1 <= k < (seq![p] + forest_order(items, roots, fuel)).len()
            ==> #[trigger] sits_in_earlier(seq![p] + forest_order(items, roots, fuel), k),
    decreases fuel, roots.len() + 1,
{
    let f = seq![p] + forest_order(items, roots, fuel);
    if roots.len() > 0 {
        let t = tree_order(items, roots[0], fuel);
        let rest = forest_order(items, roots.drop_first(), fuel);
        let g = seq![p] + rest;
        lemma_tree_walk_sits(items, roots[0], fuel);
        assert forall|i: int| 0 <= i < roots.drop_first().len() implies is_child_of(#[trigger] roots.drop_first()[i], p.id@) by {
            assert(roots.drop_first()[i] == roots[i + 1]);
        }
        lemma_forest_walk_sits(items, p, roots.drop_first(), fuel);
        assert(f =~= seq![p] + t + rest);
        assert forall|k: int| 1 <= k < f.len() implies #[trigger] sits_in_earlier(f, k) by {
            if k <= t.len() {
                if k == 1 {
                    assert(f[1] == roots[0]);
                    assert(is_child_of(f[1], f[0].id@));
                } else {
                    assert(f[k] == t[k - 1]);
                    assert(sits_in_earlier(t, k - 1));
                    let j = choose|j: int| 0 <= j < k - 1 && is_child_of(t[k - 1], (#[trigger] t[j]).id@);
                    assert(f[j + 1] == t[j]);
                }
            } else {
                let k2 = k - t.len();
                assert(f[k] == g[k2]);
                assert(sits_in_earlier(g, k2));
                let j = choose|j: int| 0 <= j < k2 && is_child_of(g[k2], (#[trigger] g[j]).id@);
                if j == 0 {
                    assert(f[0] == g[0]);
                } else {
                    assert(f[j + t.len()] == g[j]);
                }
            }
        }
    } else {
        assert(f =~= seq![p]);
    }
}

/// In the walk of the tree below `it`, every item after `it` sits in an item
/// listed before it.
proof fn lemma_tree_walk_sits(items: Seq<Item>, it: Item, fuel: nat)
    ensures
        tree_order(items, it, fuel).len() >= 1,
        tree_order(items, it, fuel)[0] == it,
        forall|k: int| 1 <= k < tree_order(items, it, fuel).len() ==> #[trigger] sits_in_earlier(tree_order(items, it, fuel), k),
    decreases fuel, 0nat,
{
    if fuel > 0 {
        let ch = children(items, it.id@).reverse();
        lemma_children_sit_in(items, it.id@);
        assert forall|i: int| 0 <= i < ch.len() implies is_child_of(#[trigger] ch[i], it.id@) by {
            assert(ch[i] == children(items, it.id@)[children(items, it.id@).len() - 1 - i]);
        }
        lemma_forest_walk_sits(items, it, ch, (fuel - 1) as nat);
        let f = seq![it] + forest_order(items, ch, (fuel - 1) as nat);
        assert(tree_order(items, it, fuel) == f);
        assert forall|k: int| 1 <= k < tree_order(items, it, fuel).len() implies #[trigger] sits_in_earlier(tree_order(items, it, fuel), k) by {
            assert(sits_in_earlier(f, k));
        }
    }
}

/// What the walk below an item returns stays inside its tree: the item
/// itself comes first, and every later item sits in one returned before it.
pub proof fn lemma_item_with_children_is_one_tree(items: Seq<Item>, it: Item, fuel: nat)
    ensures
        tree_order(items, it, fuel)[0] == it,
        forall|k: int| 1 <= k < tree_order(items, it, fuel).len() ==> #[trigger] sits_in_earlier(tree_order(items, it, fuel), k),
{
    lemma_tree_walk_sits(items, it, fuel);
}

} // verus!
