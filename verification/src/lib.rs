//! Devicetree Source (DTS) parsing and change tracking.
//!
//! The crate has two halves: a recursive-descent parser that turns DTS text
//! into a tree of nodes, properties and typed data items, and a label store
//! that walks the parsed tree together with a list of amendments, resolving
//! `&label` / `&{/path}` references, recording the ordered history of every
//! element placed at each path, propagating node deletions to whole subtrees,
//! and enforcing global label uniqueness.

pub mod bytes;
pub mod parser;
pub mod store;
pub mod tree;
