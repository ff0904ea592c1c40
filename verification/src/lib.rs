use vstd::prelude::*;

pub mod config;
pub mod idx_range;
pub mod pages;
pub mod source;
pub mod store;
pub mod sugar;

pub use config::{Config, TypedConfig};
pub use idx_range::IdxRange;
pub use source::SourceRange;
pub use store::{
    accumulate, cache_page, cache_pages, fresh_pages, load, load_or_cache, load_page, load_pages,
    page_path, pages_dir, route, store_pages_range, try_collect, Action, Loader, PageRead,
    PartialAccumulator, Route, Step, StepsIter, StoreError, StorePages,
};

verus! {

/// The index space: positions in a producer's output.
pub type Idx = u128;

} // verus!
