use std::marker::PhantomData;

use vstd::prelude::*;

verus! {

/// Where the cache keeps its directories, for pages of `PAGE_SIZE` values.
#[derive(Hash)]
pub struct Config<const PAGE_SIZE: u128> {
    pub root: String,
}

impl<const PAGE_SIZE: u128> Config<PAGE_SIZE> {
    pub const DEFAULT_ROOT: &'static str = ".cachalot";

    /// The configuration with the default root.
    pub fn new() -> (config: Self)
        ensures
            config.root@ == Self::DEFAULT_ROOT@,
    {
        Config { root: Self::DEFAULT_ROOT.to_owned() }
    }
}

/// A configuration for values of type `V`.
pub struct TypedConfig<V, const PAGE_SIZE: u128> {
    pub config: Config<PAGE_SIZE>,
    pub _type: PhantomData<V>,
}

impl<V, const PAGE_SIZE: u128> TypedConfig<V, PAGE_SIZE> {
    /// The configuration with the default root.
    pub fn new() -> (typed: Self)
        ensures
            typed.config.root@ == Config::<PAGE_SIZE>::DEFAULT_ROOT@,
    {
        Self { config: Config::new(), _type: PhantomData }
    }
}

} // verus!
