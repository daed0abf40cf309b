//! A small network simulator: independent computers joined by an undirected
//! multigraph exchange edge-addressed messages across discrete update
//! cycles, under a synchronous run / deliver tick.

pub mod computer;
pub mod connected_to;
pub mod laws;
pub mod message;
pub mod module;
pub mod world;

pub use computer::Behavior;
pub use computer::Computer;
pub use connected_to::ConnectedTo;
pub use connected_to::remove_disjoint;
pub use message::ComputerId;
pub use message::EdgeId;
pub use message::Message;
pub use message::MessageData;
pub use message::MessagePort;
pub use message::MessageQueue;
pub use module::External;
pub use world::World;
