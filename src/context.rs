//! The state threaded through the traversal of a syntax tree.
use vstd::prelude::*;

use crate::config::Config;

verus! {

/// Where the traversal stands: the indentation depth and whether it is inside
/// a `keymap` node and inside the value list of a `bindings` property.
///
/// A context is a value: every step that needs other settings builds a new
/// one, so siblings never see what a subtree changed.
#[derive(Clone, Copy)]
pub struct Context<'a> {
    pub indent: usize,
    pub keymap: bool,
    pub bindings: bool,
    pub config: &'a Config,
}

impl<'a> Context<'a> {
    /// The root context: no indentation, no mode flags.
    pub fn root(config: &'a Config) -> (r: Context<'a>)
        ensures
            r.indent == 0,
            !r.keymap,
            !r.bindings,
            r.config == config,
    {
        Context { indent: 0, keymap: false, bindings: false, config }
    }

    /// The same context, `increment` levels deeper.
    pub fn inc(&self, increment: usize) -> (r: Context<'a>)
        requires
            self.indent + increment <= usize::MAX,
        ensures
            r == (Context { indent: (self.indent + increment) as usize, ..*self }),
    {
        Context { indent: self.indent + increment, ..*self }
    }

    /// The same context, `decrement` levels shallower.
    pub fn dec(&self, decrement: usize) -> (r: Context<'a>)
        requires
            decrement <= self.indent,
        ensures
            r == (Context { indent: (self.indent - decrement) as usize, ..*self }),
    {
        Context { indent: self.indent - decrement, ..*self }
    }

    /// The same context at the given depth.
    pub fn with_indent(&self, indent: usize) -> (r: Context<'a>)
        ensures
            r == (Context { indent, ..*self }),
    {
        Context { indent, ..*self }
    }

    /// The same context, marked as inside a `keymap` node.
    pub fn keymap(&self) -> (r: Context<'a>)
        ensures
            r == (Context { keymap: true, ..*self }),
    {
        Context { keymap: true, ..*self }
    }

    /// The same context, marked as inside a `bindings` value list.
    pub fn bindings(&self) -> (r: Context<'a>)
        ensures
            r == (Context { bindings: true, ..*self }),
    {
        Context { bindings: true, ..*self }
    }

    /// A `bindings` property under a `keymap` node: its cells are laid out
    /// as a table that follows the keyboard's grid.
    pub fn has_zephyr_syntax(&self) -> (r: bool)
        ensures
            r == (self.bindings && self.keymap),
    {
        self.bindings && self.keymap
    }
}

} // verus!
