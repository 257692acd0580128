//! A hierarchical relative-neighborhood graph: an in-memory index for approximate
//! nearest-neighbor search over keys of a metric space.
//!
//! Every node owns an edge list on the base layer, which names its neighbors by
//! their ids. Searches descend greedily along edges; the optimization routines add
//! shortcut edges so that a strictly descending path towards a target exists; the
//! freshening cycle connects the stalest nodes anew.
//!
//! The contracts speak of an index through its view, [`HrcView`]: the keys, the
//! values, the adjacency and the freshening order as sequences indexed by node id.
//! Every operation keeps the index well formed: the graph is simple, symmetric and
//! connected, its edges are counted, and the freshening order is one cycle through
//! all nodes.

pub mod cycle;
pub mod detach;
pub mod edge_list;
pub mod graph;
pub mod greedy;
pub mod index;
pub mod insert;
pub mod keys;
pub mod knn;
pub mod laws;
pub mod local;
pub mod metric;
pub mod optimize;
pub mod reach;
pub mod reinsert;
pub mod search;
pub mod stats;

pub use index::{Hrc, HrcView};
pub use keys::{Bits128, Bits256};
pub use metric::{Distance, MetricPoint};
