//! Tile entities of a Minecraft world save.
//!
//! A world directory holds region files; a region file holds up to 1024
//! compressed chunks; a chunk is an NBT document that lists its tile
//! entities. This crate decides what a scan of such a directory yields, item
//! by item, and leaves the reading of directories and files to its caller.
//!
//! * [`region_name`] reads the names of region files and puts them in order.
//! * [`region`] reads the header of a region file and the chunk of a slot.
//! * [`nbt`] holds NBT documents and [`chunk`] the chunks of a region;
//!   [`nesting`] keeps documents that nest too deep from the decoder,
//!   [`names`] orders the names of their entries and [`canonical`] proves
//!   that a document has one value.
//! * [`tile_entity`] extracts the tile entities of a chunk.
//! * [`world_fetcher`] steps through the chunks of a world and
//!   [`tile_entity_iterator`] through its tile entities.
//! * [`scan`] says what a scan yields as a whole and proves that the steps
//!   yield it; [`listing`] proves that the order in which a directory lists
//!   its entries does not matter.
//!
//! Chunks are inflated by `fastanvil` and documents are decoded by
//! `fastnbt`. What is taken on trust of the two stands at the functions
//! marked `external_body` in [`region`] and [`nbt`]; all else is proved.

pub mod canonical;
pub mod chunk;
pub mod listing;
pub mod names;
pub mod nbt;
pub mod nesting;
pub mod region;
pub mod region_name;
pub mod scan;
pub mod tile_entity;
pub mod tile_entity_iterator;
pub mod world_fetcher;
