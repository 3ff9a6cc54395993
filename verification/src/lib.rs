//! Regular expression search: a parser turns a regular expression (traditional or alternative
//! syntax) into a tree, a walker searches a text with the tree, and reports describe the match.
use vstd::prelude::*;

pub use crate::error::Error;
pub use crate::limits::{Limits, EFFECTIVELY_INFINITE};
pub use crate::parse::{parse_tree, parse_tree_with};
pub use crate::peekable::Peekable;
pub use crate::report::Report;
pub use crate::text::Text;
pub use crate::tree::{AndNode, CharsNode, Node, OrNode, RangeNode, SpecialNode};
pub use crate::walk::{walk_tree, Path};

pub mod alt_parse;
pub mod config;
pub mod defs;
pub mod error;
pub mod limits;
pub mod parse;
pub mod peekable;
pub mod report;
pub mod session;
pub mod text;
pub mod tree;
pub mod walk;
pub mod walk_model;

verus! {

} // verus!
