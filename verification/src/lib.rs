//! Verified core of a node-graph editor: the discrete decisions behind a
//! pannable canvas of nodes and edges — which sides handles face, how a
//! graph is cut into layers and ordered, which seat on a node's rim each
//! connection end takes, which frame gives way when two collide, and what a
//! selection cascade removes.
//!
//! Everything here works on plain values (indices, flags, whole-number
//! seats, identifiers); continuous geometry is computed by the caller.

pub mod types;
pub mod layout;
pub mod ports;
pub mod graph;
pub mod gesture;
pub mod settle;
