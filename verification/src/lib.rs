//! A call-graph visualization engine.
//!
//! The library turns per-file symbol outlines and symbol-to-symbol relations
//! (call edges, interface-implementation edges), as reported by a
//! code-intelligence provider, into a renderable graph: per-file node tables
//! plus cross-file edges, clustered by directory, serialized either as a
//! table-based DOT diagram or as a Mermaid flowchart.

pub mod generator;
pub mod graph;
pub mod graph_model;
pub mod lang;
pub mod lsp_types;
pub mod outline;
pub mod text;


pub use generator::GraphGenerator;
pub use graph_model::{
    File, FileMatchType, FileSearchResult, GlobalPosition, Graph, GraphBuilder, MatchType,
    Relation, RelationKind, SearchResult, Symbol,
};
