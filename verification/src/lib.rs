pub mod loot;
mod strings;
pub mod string_map;
pub mod verify;

use vstd::prelude::*;

verus! {

/// Version of the boundary between this library and its host; bumped whenever a
/// request or result shape changes incompatibly.
pub const ABI_VERSION: u32 = 1;

} // verus!
