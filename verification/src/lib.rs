//! Query and serialization core of an on-disk octree of points.
//!
//! The index maps node identifiers to stored point counts. From per-node
//! screen measurements it selects the visible nodes with a sampling stride
//! each, and it packs the points of requested nodes into the wire format.
//! Floating-point values never enter this crate: coordinates are carried as
//! IEEE-754 bit patterns and screen extents in fixed point.

pub mod node_id;
pub mod wire;
pub mod blob;
pub mod visibility;
pub mod octree;

pub use crate::blob::{NodePoints, NodesToBlob, Point};
pub use crate::node_id::{ChildIndex, NodeId};
pub use crate::octree::{BoundingCube, Error, Meta, NodeFile, Octree, CURRENT_VERSION};
pub use crate::visibility::{Projection, UseLod, VisibleNode};
