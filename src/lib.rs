//! Vantage-point tree: nearest-neighbour search over any metric space.
//!
//! Items are indexed once; queries then walk the tree with branch-and-bound
//! pruning that relies on the triangle inequality. The items themselves are
//! never inspected, only the distances between them.
pub mod distance;
pub mod metric;
pub mod candidate;
pub mod tree;
pub mod laws;

pub use distance::{DistanceSpec, DistanceValue};
pub use metric::MetricSpace;
pub use candidate::{BestCandidate, KNearest, ReturnByIndex, WithinRadius};
pub use tree::{Owned, Tree};
