//! Configuration carried to the script engine.

use vstd::prelude::*;

verus! {

/// Top-level configuration. Nothing of it reaches the core yet.
#[derive(Debug)]
pub struct Config {}

/// Where the script engine finds its cache configuration file, and where the
/// compilation cache lives; a missing cache path falls back to a `cache`
/// directory under the caller's home.
#[derive(Debug)]
pub struct WasmExecutorConfig {
    pub config_path: String,
    pub cache_path: Option<String>,
}

} // verus!
