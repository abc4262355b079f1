//! The command-line surface: the options a run is given.
use vstd::prelude::*;

verus! {

/// When output is colored.
#[derive(Debug, Clone, Copy, PartialEq, Eq, Structural)]
pub enum ColorWhen {
    Auto,
    Always,
    Never,
}

/// The parsed command line.
#[derive(Debug, Clone)]
pub struct Cli {
    /// Show unavailable domains too.
    pub all: bool,
    /// Output as NDJSON.
    pub json: bool,
    /// Filter TLDs by length: `2`, `2..5`, `..3`, `4..`.
    pub tld_len: Option<String>,
    /// Maximum rows to emit after filtering; `0` shows all.
    pub limit: Option<usize>,
    /// Color output: auto, always, never.
    pub color: ColorWhen,
    /// The domain to search: `abc` or `abc.sh`.
    pub domain: Option<String>,
}

} // verus!
