//! A k-d tree over points with integer coordinates: balanced construction,
//! exact nearest-neighbour search, insertion without rebalancing, and
//! conversion to and from plain records for storage.

pub mod batch;
pub mod distance;
pub mod error;
pub mod laws;
pub mod model;
pub mod record;
pub mod sort;
pub mod tree;

pub use error::KdError;
pub use record::NodeRecord;
pub use tree::KDTree;
