//! The items most uses of the library need, in one import.
pub use crate::bounding::{Aabb, TUVec3, TUVec3u16, TUVec3u32, TUVec3u64, TUVec3u8, Unsigned};
pub use crate::node::{Branch, Node, NodeType};
pub use crate::pool::Pool;
pub use crate::tree::Octree;
pub use crate::{ElementId, NodeId, Position, TreeError, Volume};
