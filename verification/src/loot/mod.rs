pub mod container_extensions;
pub mod models;
pub mod mongo_id;
pub mod random_util;
pub mod location_loot_generator;
pub mod item_helper;
pub mod static_loot;
pub mod loose_loot;
