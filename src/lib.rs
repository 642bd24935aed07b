//! A slot cache for expensive, externally created resources (decoded images,
//! rasterized fonts), handed out to callers as small integer handles.
//!
//! The cache owns every instance. A [`Handle`] is a weak reference: it is
//! checked on every use, so a handle whose resource was unloaded is reported
//! as missing instead of being read.

mod cache;
mod handle;
mod path_index;
mod slot_table;

pub use cache::{
    lemma_load_dedup, lemma_loaded_wf, lemma_reuse_after_unload, lemma_unload_twice,
    lemma_unloaded_empty, lemma_unloaded_is_missing, lemma_unloaded_wf, CacheState, ResourceCache,
};
pub use handle::{DrawError, Handle, LoadError};
pub use path_index::PathIndex;
pub use slot_table::{
    all_occupied, first_fit, is_first_free, lemma_first_fit, lemma_first_free_unique, placed,
    SlotTable,
};
