//! Formatter settings.
use vstd::prelude::*;

use crate::layouts::KeyboardLayoutType;

verus! {

/// The settings of one formatting run.
pub struct Config {
    /// The physical keyboard whose grid drives the layout of `bindings` tables.
    pub layout: KeyboardLayoutType,
    /// The text written once per level of indentation.
    pub indent_str: String,
    /// Whether node kinds without a rule of their own are reported.
    pub warn_on_unhandled_tokens: bool,
}

impl Config {
    /// The indentation unit used when none is configured: two spaces.
    pub fn default_indent_str() -> (r: String)
        ensures
            r@ == seq![' ', ' '],
    {
        let r = String::from_str("  ");
        proof {
            reveal_strlit("  ");
        }
        r
    }
}

impl Default for Config {
    fn default() -> (r: Config)
        ensures
            r.layout == KeyboardLayoutType::Adv360,
            r.indent_str@ == seq![' ', ' '],
            !r.warn_on_unhandled_tokens,
    {
        Config {
            layout: KeyboardLayoutType::Adv360,
            indent_str: Config::default_indent_str(),
            warn_on_unhandled_tokens: false,
        }
    }
}

} // verus!
