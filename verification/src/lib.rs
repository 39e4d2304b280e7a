//! A consistent-hashing ring: maps lookup keys to a mutable set of nodes so
//! that membership changes remap only a small fraction of the key space.

pub mod digits;
pub mod hash_ring;
pub mod laws;
pub mod node;
pub mod order;
pub mod strategy;

pub use crate::hash_ring::HashRing;
pub use crate::node::NodeInfo;
pub use crate::node::RingNode;
pub use crate::strategy::ConstantStrategy;
pub use crate::strategy::HashStrategy;
pub use crate::strategy::XxHash64Strategy;
