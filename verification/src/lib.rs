//! Consolidates many small square textures, scattered across archive-packaged
//! asset collections, into one composite image (a "megatexture") together with
//! a positional index (an "atlas") that records where each named tile was
//! placed, and compiles such composites back out of the archives with a
//! backup-source fallback held to a bounded failure budget.

use vstd::prelude::*;

mod archive;
mod atlas;
mod builder;
mod codec;
mod compiler;
mod store;
mod tile;

pub use archive::{ArchiveError, PackSource};
pub use atlas::{lemma_grid_cells, Atlas, AtlasSquare};
pub use builder::{
    build_atlas, dedup_names, lemma_selected_names_max, path_filter, select_most_common,
    valid_texture_names, EmptyDatasetError, ScanError,
};
pub use codec::{
    check_info, check_texture, read_texture_rgb, rgba_to_rgb, tile_from_raw, write_texture_rgb,
    DecodeError, EncodeError,
};
pub use compiler::{
    compile_megatexture, compile_megatexture_single, lemma_compile_deterministic, CompileError,
    MAX_FAIL_RATE_DEN, MAX_FAIL_RATE_NUM,
};
pub use store::{lemma_store_round_trip, PersistenceError};
pub use tile::{lemma_blit_readback, RgbImage, CHANNELS, TILE_EDGE};

verus! {

} // verus!
