# spt_native

The native helper library of the Single Player Tarkov server, written in
Verus. Every function in `src/` with a body carries a contract that Verus
proves. The functions marked `#[verifier::external_body]` are trusted: each
makes one call into std or an outside crate, and its contract states what that
code's source or documentation shows.

- `src/verify.rs` — the data-integrity check: decoding the `checks.dat`
  manifest, the per-file verdicts, and the final report (sorted by path).
- `src/loot/container_extensions.rs` — the first-fit grid search and the
  marking of an item's footprint in a container grid.
- `src/loot/item_helper.rs` — template lookups, base-class tests, item-tree
  walks, re-iding and reparenting of item trees, and item and container sizes.
- `src/loot/mongo_id.rs` — object ids: layout, validity and uniqueness.
- `src/loot/location_loot_generator.rs` — the loot generator's decisions:
  spawn limits, seasonal rules, the guaranteed/randomised container split,
  container groups, which templates go into a container, which forced loot
  points are built, weapon presets, and the placement of a container's loot
  in its grid.
- `src/loot/static_loot.rs` — building a static container's loot items,
  measuring an item tree's footprint, placing the items one at a time, and
  the static generation run as a state machine (which container is filled
  next, and the counts reported).
- `src/loot/loose_loot.rs` — building loose loot items, the forced loose
  loot, the split of loose spawn points for the draw, each chosen point's
  pool, and the build of its chosen item within its spawn limit.
- `src/loot/random_util.rs` — the integer random draws.
- `src/string_map.rs`, `src/strings.rs` — a text-keyed map and text helpers.

`app/` holds what the host talks to and what the verified library cannot
hold: the serde wire shapes, the file-system and async side of the integrity
check, the process-wide id source, the floating-point random draws and
weighted pools, and the generator's two entry points
(`app/generator.rs`), which make those draws, hand their outcomes to the
verified functions, and write their results (stack sizes, locations, log
lines) into the wire shapes. Filling ammunition boxes and magazines with cartridges
and filling armour slots need helpers this project does not have: such items
are generated empty, with a warning.

`tests/` runs the library on concrete cases.
