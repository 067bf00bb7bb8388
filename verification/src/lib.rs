//! Reading and editing Bedrock world data: players, inventories, blocks, chunks and entities.
//!
//! The library works on plain values. Database iteration, file access and the binary NBT codec
//! live with the caller, who hands over keys, values and decoded trees.

pub mod actors;
pub mod batch;
pub mod blocks;
pub mod bytes;
pub mod chunk_export;
pub mod cli;
pub mod codec;
pub mod compress;
pub mod density;
pub mod dump;
pub mod encoding;
pub mod entities;
pub mod import;
pub mod inventory;
pub mod json;
pub mod keys;
pub mod level;
pub mod lines;
pub mod messages;
pub mod name_order;
pub mod nbt;
pub mod nbt_edit;
pub mod nbt_json;
pub mod placement;
pub mod player_report;
pub mod ranking;
pub mod regions;
pub mod relocate;
pub mod relocation;
pub mod selection;
pub mod store;
pub mod summary;
pub mod text;
pub mod transfer;
pub mod world;

pub use inventory::{collect_player_encoded_items, EncodedItem, Item, PlayerInventory};
pub use text::resolve_db_path;
pub use world::WorldHandle;
