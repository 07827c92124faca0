//! The generator's settings.
use vstd::prelude::*;

verus! {

/// Which LR construction builds the parsing tables.
#[allow(non_camel_case_types)]
#[derive(Debug, Clone, Copy, PartialEq, Eq, Structural)]
pub enum ParseMethod {
    SLR,
    LALR,
}

/// The generator's settings: the LR construction, what to log, and where
/// to write the optional artefacts.
#[derive(Debug, Clone)]
pub struct Config {
    pub parse_method: ParseMethod,
    pub debug: DebugConfig,
    pub vis: VisConfig,
}

/// Which phases log their progress.
#[derive(Debug, Clone, Copy, PartialEq, Eq, Structural)]
pub struct DebugConfig {
    pub generation: bool,
    pub parsing: bool,
}

/// Where the optional artefacts go, each when set.
#[derive(Debug, Clone)]
pub struct VisConfig {
    pub slr_png: Option<String>,
    pub parse_table: Option<String>,
    pub parse_steps: Option<String>,
    pub symbol_table: Option<String>,
    pub grammar_tree: Option<String>,
    pub dfa: Option<String>,
}

} // verus!
