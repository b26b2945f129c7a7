//! In-memory editing of content-addressed tree objects.
//!
//! The heart of the crate is [`editor::Editor`]: it applies path-based
//! insertions and replacements to a hierarchy of trees and flushes the
//! changed subtrees bottom-up through a caller-supplied writer that assigns
//! each tree its content-addressed identifier.
//!
//! Around it stand the entry ordering rule ([`order`]), the tree data model
//! ([`tree`]), the wire encoding and an in-memory writer ([`writer`]), the
//! cache-tree index extension with its consistency check ([`ext`]), the
//! index entry-order check ([`index`]), a configuration-parser error type
//! ([`config`]) and a no-op tracing span ([`trace`]).

pub mod config;
pub mod editor;
pub mod ext;
pub mod index;
pub mod oid;
pub mod order;
pub mod trace;
pub mod tree;
pub mod writer;
