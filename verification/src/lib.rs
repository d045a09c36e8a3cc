//! A directed-graph engine: nodes and edges keyed by string identifiers,
//! forward/backward adjacency kept in step with edge insertion, breadth-first
//! shortest-path queries, and an alternate backing where the same entity model
//! is persisted in an embedded transactional key-value store.

pub mod errors;
pub mod node;
pub mod edge;
pub mod graph;
pub mod analysis;
pub mod store;
pub mod traits;

pub use errors::GraphError;
pub use errors::GraphErrorKind;
pub use node::Node;
pub use edge::Edge;
pub use edge::RocksEdge;
pub use graph::Graph;
pub use traits::GraphKeyTrait;
