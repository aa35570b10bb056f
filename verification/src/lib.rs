//! Translates packets between a Minecraft: Java Edition server of the newest release
//! and clients of older ones.
use vstd::prelude::*;

pub mod catalog;
pub mod chunk_frames;
pub mod chunk_legacy;
pub mod chunk_remap;
pub mod client_item;
pub mod connection;
pub mod entity;
pub mod entity_data_types;
pub mod equipment_tags;
pub mod event;
pub mod hash;
pub mod hover;
pub mod item;
pub mod item_backup;
pub mod item_component;
pub mod item_nbt;
pub mod item_round_trip;
pub mod item_tags;
pub mod mapping;
pub mod metadata_entries;
pub mod nbt;
pub mod number;
pub mod order;
pub mod palette;
pub mod particle;
pub mod particle_bytes;
pub mod particle_packets;
pub mod position;
pub mod recipe_book;
pub mod recipe_definitions;
pub mod recipe_displays;
pub mod recipe_legacy;
pub mod recipe_packets;
pub mod shape;
pub mod sound;
pub mod stack_forms;
pub mod target;
pub mod text;
pub mod types;
pub mod version;
pub mod wire;

verus! {

} // verus!
