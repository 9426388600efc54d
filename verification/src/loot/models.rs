//! The records the loot logic reads and writes: game items, item templates,
//! placements and spawn counters. Everything the logic never looks at rides
//! along in a JSON value, untouched.

use vstd::prelude::*;

use crate::loot::container_extensions::FindSlotResult;
use crate::string_map::StringMap;

verus! {

/// `serde_json::Value`, a JSON document this library carries but never reads.
#[verifier::external_type_specification]
#[verifier::external_body]
pub struct ExJsonValue(serde_json::Value);

/// `<serde_json::Value as Clone>::clone`: a deep copy of the document, which
/// the crate's source builds variant by variant, so it is the same value.
#[verifier::external_body]
pub(crate) fn clone_json(v: &serde_json::Value) -> (r: serde_json::Value)
    ensures
        r == *v,
{
    v.clone()
}

/// A copy of an optional text.
pub(crate) fn clone_opt_string(s: &Option<String>) -> (r: Option<String>)
    ensures
        r == *s,
{
    match s {
        Some(t) => Some(t.clone()),
        None => None,
    }
}

/// The characters of an optional text.
pub open spec fn opt_view(s: Option<String>) -> Option<Seq<char>> {
    match s {
        Some(t) => Some(t@),
        None => None,
    }
}

/// An item instance: its id, its template (`_tpl`), the id of the item it sits
/// in, the slot it occupies, and a description. Its location, stack data and
/// any other fields are carried in `carried` (a JSON object) and never read.
#[derive(Debug)]
pub struct Item {
    pub id: String,
    pub template: String,
    pub parent_id: Option<String>,
    pub slot_id: Option<String>,
    pub desc: Option<String>,
    pub carried: serde_json::Value,
}

impl Clone for Item {
    fn clone(&self) -> (r: Self)
        ensures
            r == *self,
    {
        Item {
            id: self.id.clone(),
            template: self.template.clone(),
            parent_id: clone_opt_string(&self.parent_id),
            slot_id: clone_opt_string(&self.slot_id),
            desc: clone_opt_string(&self.desc),
            carried: clone_json(&self.carried),
        }
    }
}

/// A loot item: an item plus the key it was drawn under, if any.
#[derive(Debug)]
pub struct SptLootItem {
    pub item: Item,
    pub composed_key: Option<String>,
}

/// Which way round an item lies in a container grid.
#[derive(Debug, Clone, Copy, PartialEq, Eq, Structural)]
pub enum ItemRotation {
    Horizontal,
    Vertical,
}

impl Default for ItemRotation {
    fn default() -> (r: Self)
        ensures
            r == ItemRotation::Horizontal,
    {
        ItemRotation::Horizontal
    }
}

/// Where an item sits in a container grid.
#[derive(Debug, Clone, Copy, PartialEq, Eq, Structural)]
pub struct ItemLocation {
    pub x: Option<i32>,
    pub y: Option<i32>,
    pub r: ItemRotation,
    pub is_searched: Option<bool>,
    pub rotation: Option<bool>,
}

impl Default for ItemLocation {
    fn default() -> (r: Self)
        ensures
            r == (ItemLocation { x: None, y: None, r: ItemRotation::Horizontal, is_searched: None, rotation: None }),
    {
        ItemLocation { x: None, y: None, r: ItemRotation::Horizontal, is_searched: None, rotation: None }
    }
}

impl ItemLocation {
    /// The location a found slot gives an item placed in a container.
    pub open spec fn from_slot_spec(slot: FindSlotResult) -> ItemLocation {
        ItemLocation {
            x: Some(slot.x),
            y: Some(slot.y),
            r: if slot.rotation { ItemRotation::Vertical } else { ItemRotation::Horizontal },
            is_searched: None,
            rotation: None,
        }
    }

    /// The location a found slot gives an item placed in a container: the
    /// slot's column and row, lying vertical when the item was rotated to fit.
    pub fn from_slot(slot: &FindSlotResult) -> (l: Self)
        ensures
            l == ItemLocation::from_slot_spec(*slot),
    {
        ItemLocation {
            x: Some(slot.x),
            y: Some(slot.y),
            r: if slot.rotation { ItemRotation::Vertical } else { ItemRotation::Horizontal },
            is_searched: None,
            rotation: None,
        }
    }
}

/// One slot of an item template: its name, whether it must be filled, and
/// which templates it accepts.
#[derive(Debug)]
pub struct SlotView {
    pub name: Option<String>,
    pub required: Option<bool>,
    pub filter: Option<Vec<String>>,
}

/// The part of an item template the loot logic reads. The template's two
/// floating-point maximum counts (of stack slots and of cartridges) are not
/// held here; they stay with the caller.
#[derive(Debug)]
pub struct ItemView {
    pub parent: Option<String>,
    pub width: Option<i32>,
    pub height: Option<i32>,
    pub stack_max_size: Option<i32>,
    pub stack_min_random: Option<i32>,
    pub stack_max_random: Option<i32>,
    pub extra_size_up: Option<i32>,
    pub extra_size_down: Option<i32>,
    pub extra_size_left: Option<i32>,
    pub extra_size_right: Option<i32>,
    pub extra_size_force_add: Option<bool>,
    /// First grid only.
    pub grid_cells_h: Option<i32>,
    pub grid_cells_v: Option<i32>,
    pub stack_slot_first_filter_first: Option<String>,
    pub cartridges_first_filter: Option<Vec<String>>,
    pub chambers_first_filter: Option<Vec<String>>,
    pub slots: Option<Vec<SlotView>>,
    pub conflicting_items: Option<Vec<String>>,
    pub caliber: Option<String>,
    pub ammo_caliber: Option<String>,
    pub def_ammo: Option<String>,
}

/// The seasonal state of the game: whether a seasonal event and the christmas
/// event are running, the templates that only spawn during a seasonal event,
/// and the containers that only spawn during christmas. Each list is a set:
/// only whether it holds a text matters.
pub struct SeasonalView {
    pub seasonal_event_active: bool,
    pub christmas_event_enabled: bool,
    pub inactive_seasonal_items: Vec<String>,
    pub christmas_container_ids: Vec<String>,
}

/// How much a log line matters.
#[derive(Debug, Clone, Copy, PartialEq, Eq, Structural)]
pub enum NoteLevel {
    Debug,
    Success,
    Warning,
    Error,
}

/// A log line for the caller to replay: either a plain message, or a text key
/// with its named arguments (an argument without a value is null). A key
/// whose argument is one bare value has a single argument with an empty name.
#[derive(Debug)]
pub struct Note {
    pub level: NoteLevel,
    pub message: Option<String>,
    pub locale_key: Option<String>,
    pub args: Vec<(String, Option<String>)>,
}

/// The characters of an optional borrowed text.
pub open spec fn opt_str(s: Option<&str>) -> Option<Seq<char>> {
    match s {
        Some(t) => Some(t@),
        None => None,
    }
}

/// `n` is the plain message `message` at `level`.
pub open spec fn plain_note(n: Note, level: NoteLevel, message: Seq<char>) -> bool {
    &&& n.level == level
    &&& opt_view(n.message) == Some(message)
    &&& n.locale_key is None
    &&& n.args@.len() == 0
}

/// `n` is the text key `key` at `level`, with the named arguments `args`.
pub open spec fn keyed_note(n: Note, level: NoteLevel, key: Seq<char>, args: Seq<(Seq<char>, Option<Seq<char>>)>) -> bool {
    &&& n.level == level
    &&& n.message is None
    &&& opt_view(n.locale_key) == Some(key)
    &&& n.args@.len() == args.len()
    &&& forall|i: int| 0 <= i < args.len() ==> (#[trigger] n.args@[i]).0@ == args[i].0 && opt_view(n.args@[i].1) == args[i].1
}

/// What a note says: its level, message, text key and arguments.
pub open spec fn note_view(n: Note) -> (NoteLevel, Option<Seq<char>>, Option<Seq<char>>, Seq<(Seq<char>, Option<Seq<char>>)>) {
    (n.level, opt_view(n.message), opt_view(n.locale_key), n.args@.map_values(|a: (String, Option<String>)| (a.0@, opt_view(a.1))))
}

/// What a list of notes says, in order.
pub open spec fn notes_view(ns: Seq<Note>) -> Seq<(NoteLevel, Option<Seq<char>>, Option<Seq<char>>, Seq<(Seq<char>, Option<Seq<char>>)>)> {
    ns.map_values(|n: Note| note_view(n))
}

/// `after` is `before` with `k` more notes at its end.
pub open spec fn notes_added(before: Seq<Note>, after: Seq<Note>, k: int) -> bool {
    &&& after.len() == before.len() + k
    &&& forall|i: int| 0 <= i < before.len() ==> #[trigger] after[i] == before[i]
}

/// A plain message at `level`.
pub fn plain(level: NoteLevel, message: String) -> (n: Note)
    ensures
        plain_note(n, level, message@),
        note_view(n) == (level, Some(message@), None::<Seq<char>>, Seq::<(Seq<char>, Option<Seq<char>>)>::empty()),
{
    let n = Note { level, message: Some(message), locale_key: None, args: Vec::new() };
    assert(note_view(n).3 =~= Seq::<(Seq<char>, Option<Seq<char>>)>::empty());
    n
}

/// An optional borrowed text, copied.
pub fn owned_opt(s: Option<&str>) -> (r: Option<String>)
    ensures
        opt_view(r) == opt_str(s),
{
    match s {
        Some(t) => Some(t.to_owned()),
        None => None,
    }
}

/// Spawn limits per template and how many of each have spawned so far.
pub struct CounterState {
    pub max_counts: StringMap<i32>,
    pub tracked_counts: StringMap<i32>,
}

impl Default for CounterState {
    fn default() -> (c: Self)
        ensures
            c.max_counts@ == Map::<Seq<char>, i32>::empty(),
            c.tracked_counts@ == Map::<Seq<char>, i32>::empty(),
    {
        CounterState { max_counts: StringMap::new(), tracked_counts: StringMap::new() }
    }
}

} // verus!
