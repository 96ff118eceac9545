use vstd::prelude::*;

pub mod date;
pub mod text;
pub mod pipeline;
pub mod matcher;
pub mod shell;
pub mod rules;
pub mod digest;
pub mod clock;
pub mod state;
pub mod expand;
pub mod history;
pub mod paths;
pub mod replay;
pub mod suggest;
pub mod heat;
pub mod hooks;
pub mod rewrite;
pub mod tool_swap;
pub mod filters;
pub mod capture;
pub mod loader;
pub mod store;
pub mod config;
pub mod log;
pub mod obfsck;
pub mod rtk;
pub mod insights;
pub mod chain;
pub mod protocol;
pub mod concrete;
pub mod testing;

verus! {
} // verus!
