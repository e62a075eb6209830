pub mod bounding;
pub mod data;
pub mod handles;
pub mod node;
pub mod rect;
pub mod storage;
pub mod tree;

pub use bounding::{BoundingNumber, BoxBounded};
pub use data::QuadTreeData;
pub use node::QuadTreeNode;
pub use rect::Rect;
pub use storage::StableStore;
pub use tree::QuadTree;
