//! A document-tree builder for audit-oriented markup scanning.
//!
//! Raw markup is tokenized elsewhere into a stream of lexical events; this
//! crate turns such a stream into a queryable document tree, optionally
//! filtering out elements that carry no audit value, and offers traversal,
//! query and serialization operations on the result.

pub mod document;
pub mod handler;
pub mod headers;
pub mod node;
pub mod parser;
pub mod strings;
pub mod support;
pub mod utilities;
