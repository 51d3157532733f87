//! Depth-first topological sort of the dependency closure of one target.
//!
//! A graph is an ordered slice of [`Node`]s, each naming the identifiers it
//! depends on.  [`sort`] and [`sort_cb`] emit every node the target
//! transitively depends on exactly once, each after its dependencies and the
//! target last, and report a missing identifier or a cyclic chain as an
//! error.  What either call returns, hands to its sink and leaves behind is
//! stated exactly by the model in [`traversal`], whose ordering laws are
//! proved in [`props`].

pub mod graph;
pub mod resolve;
pub mod traversal;
pub mod props;
pub mod sink;
pub mod engine;

pub use engine::sort;
pub use engine::sort_cb;
pub use graph::Node;
pub use graph::TopsortError;
pub use sink::Sink;
pub use sink::ValueSink;
