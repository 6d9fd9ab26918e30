//! Structural editing of source text.
//!
//! Blocks, the movable units of a document, are what structural patterns
//! match in its syntax tree: a primary node with the comments and
//! attributes in front of it. The engine extracts the blocks of a document
//! as a forest that nests them as the syntax nests their nodes, finds the
//! block that a coordinate names, and moves one block after another,
//! taking the whitespace around it from what stands next to the two.
//!
//! The syntax tree and the matches come from the `tree_sitter` crate
//! ([`grammar`]); everything the engine does with them is done on plain
//! values ([`syntax`], [`block`]) and proved of those.

pub mod block;
pub mod error;
pub mod forest;
pub mod grammar;
pub mod installer;
pub mod legality;
pub mod locate;
pub mod matcher;
pub mod mover;
pub mod reader;
pub mod server;
pub mod syntax;
pub mod text;

pub use block::{Block, BlockTree};
pub use error::Error;
pub use forest::get_query_subtrees;
pub use locate::{BlockLocation, BlockLocationTree};
pub use mover::move_block;
