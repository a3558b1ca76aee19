//! An in-memory tree of typed document nodes (the XML data model).
//!
//! A [`forest::Forest`] holds [`forest::Tree`]s; each tree keeps its node
//! records in an arena and hands out copyable [`forest::Node`] handles.
//! Mutation keeps parent links, child sequences and attribute sets
//! consistent; navigation, serialisation and ingestion of XML text build on
//! that.

pub mod error;
pub mod qname;
pub mod value;
pub mod output;
mod arena;
pub mod forest;
pub mod navigate;
pub mod serialize;
pub mod grammar;
pub mod reader;
pub mod laws;
