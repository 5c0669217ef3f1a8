//! A formatter for devicetree source files, with column-aligned rendering of
//! keymap `bindings` tables.
pub mod bindings;
pub mod config;
pub mod context;
pub mod emitter;
pub mod filename;
pub mod fixtures;
pub mod layouts;
pub mod printer;
pub mod syntax;
pub mod text;
pub mod utils;
