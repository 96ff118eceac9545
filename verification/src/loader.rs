//! Where the rules configuration is loaded from.
use vstd::prelude::*;
use crate::rules::{same_config, RulesConfig};

verus! {

/// Interface: where the rules configuration comes from.
pub trait RulesLoader {
    fn load(&self) -> RulesConfig;
}

/// Loads the rules from the default location (the rules path of the
/// environment); the reading is done by the application.
pub struct FsRulesLoader;

/// Loads the rules from an explicit path, already resolved.
pub struct ProfileFsRulesLoader {
    pub path: String,
}

/// Loader that returns the configuration it was built with.
pub struct InMemoryRulesLoader(pub RulesConfig);

impl RulesLoader for InMemoryRulesLoader {
    fn load(&self) -> (c: RulesConfig)
        ensures
            same_config(c, self.0),
    {
        self.0.copy()
    }
}

} // verus!
