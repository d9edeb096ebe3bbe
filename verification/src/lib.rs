//! A small placeholder templating engine.
//!
//! A template is plain text containing tokens of the form `{name}`, where
//! `name` is one or more word characters. `render` replaces every live
//! (non-escaped) token with the text mapped to its name in a `ValueMap`,
//! or reports the name of the first token, in left-to-right scan order,
//! that the mapping does not cover. A token immediately preceded by an
//! opening brace is escaped and passes through unchanged.

pub mod engine;
pub mod tokens;
pub mod values;

pub use engine::render;
pub use engine::try_render;
pub use values::ValueMap;
