pub mod network;
pub mod node;
pub mod order;
