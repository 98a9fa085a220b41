//! The transmitting side of a node of a drone network: topology tracking,
//! minimum-drop routing, packet framing decisions and the per-message
//! transmission state machine.

pub mod packet;
pub mod transmitter;

pub use transmitter::{Command, PacketCommand, Transmitter};
