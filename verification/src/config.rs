//! Formatting options.
use vstd::prelude::*;

verus! {

/// Options of a formatting run: paths to leave alone and the rules to apply.
#[derive(Debug, Clone, PartialEq, Eq)]
pub struct Config {
    pub ignore: Vec<String>,
    pub rules: Rules,
}

/// Switches of the optional formatting rules.
#[derive(Debug, Clone, Copy, PartialEq, Eq)]
pub struct Rules {
    /// Put a blank line between match arms when either arm spans several lines.
    pub match_arm_spacing: bool,
    /// Collapse runs of blank lines and trim blank lines at the ends of a file.
    pub normalize_blank_lines: bool,
}

impl Default for Rules {
    fn default() -> (r: Self)
        ensures
            !r.match_arm_spacing,
            r.normalize_blank_lines,
    {
        Rules { match_arm_spacing: false, normalize_blank_lines: default_normalize_blank_lines() }
    }
}

impl Default for Config {
    fn default() -> (c: Self)
        ensures
            c.ignore@.len() == 0,
            !c.rules.match_arm_spacing,
            c.rules.normalize_blank_lines,
    {
        Config { ignore: Vec::new(), rules: Rules::default() }
    }
}

/// Blank lines are normalized unless a configuration says otherwise.
pub fn default_normalize_blank_lines() -> (r: bool)
    ensures
        r,
{
    true
}

} // verus!
