//! Collaborative rooms connected by a topology of doors, warps and one-way
//! passages, with agents that are admitted, moved and expelled by a session.

pub mod agent;
pub mod pathfinding;
pub mod room;
pub mod session;
pub mod topology;

pub use agent::RoomAgent;
pub use room::{Room, RoomState};
pub use session::{Session, SessionError};
pub use topology::{connection_key, ConnectionType, Door, Topology, TopologyError, Warp};
