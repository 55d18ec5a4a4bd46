//! Preprocessor configuration, and the parts of tracey's own configuration
//! that the preprocessor reads.
use vstd::prelude::*;

verus! {

/// `[preprocessor.tracey]` table from `book.toml`.
#[derive(Debug)]
pub struct Config {
    /// Path to a tracey `/api/forward` JSON dump, resolved relative to the
    /// book root. `None` means anchor-only mode (no coverage badges).
    pub coverage: Option<String>,
    /// Path to `.config/tracey/config.styx`, relative to `book.toml`.
    pub tracey_config: Option<String>,
    /// URL template for ref links. `{file}` and `{line}` are substituted.
    /// Derived from `source_url` in the tracey config if unset.
    pub repo_url: Option<String>,
    /// Inject the built-in `<style>` block. Default true.
    pub style: bool,
}

impl Default for Config {
    /// No coverage, no tracey config, no URL template; styles injected.
    fn default() -> (r: Self)
        ensures
            r.coverage is None,
            r.tracey_config is None,
            r.repo_url is None,
            r.style,
    {
        Config { coverage: None, tracey_config: None, repo_url: None, style: true }
    }
}

/// Root of tracey's configuration: the specifications it tracks, with the
/// fields of each that the preprocessor reads.
#[derive(Debug)]
pub struct TraceyConfig {
    pub specs: Vec<SpecConfig>,
}

impl Default for TraceyConfig {
    /// No specifications.
    fn default() -> (r: Self)
        ensures
            r.specs@.len() == 0,
    {
        TraceyConfig { specs: Vec::new() }
    }
}

/// One specification in tracey's configuration.
#[derive(Debug)]
pub struct SpecConfig {
    /// Name of the spec (for display purposes).
    pub name: String,
    /// Deprecated requirement prefix.
    pub prefix: Option<String>,
    /// Canonical URL for the specification (e.g., a GitHub repository).
    pub source_url: Option<String>,
}

} // verus!
