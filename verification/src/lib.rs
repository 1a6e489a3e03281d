//! A single-pass parser for Mustache-style, logic-less templates.
//!
//! A source string is turned into a flat list of [`Block`]s: each block
//! carries the literal text in front of a tag, the tag's name and kind, and
//! for sections the size of the subtree they open. Every function of the
//! crate is verified against a model over byte sequences: [`lexer`] says
//! where tags and names are, [`model`] what the tags build, [`shape`] what
//! holds of every draft and every template, and [`laws`] what follows for
//! every parse.

pub mod block;
pub mod builder;
pub mod error;
pub mod hash;
pub mod laws;
pub mod lexer;
pub mod model;
pub mod shape;
pub mod stack;
pub mod template;
pub mod text;

pub use block::{Block, BlockView, Tag};
pub use builder::Builder;
pub use error::{Error, ErrorView};
pub use hash::hash_name;
pub use lexer::{find_tag, next_token, read_body, Braces, Opening, TagBody, Token};
pub use template::{Partials, Template};
