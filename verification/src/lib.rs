//! A virtual network topology and simulation kernel: model a set of
//! logical nodes, equip each with virtual network interfaces, wire the
//! interfaces into an arbitrary link topology, and exercise node-level
//! message exchange — no sockets, no hardware.
//!
//! The orchestrator drives every node through declaration, link
//! establishment, a single finalize step, and a cooperative run loop with
//! per-node mailboxes. Interfaces live in one index-addressed store, so a
//! node can hold exclusive write access to its own block while the whole
//! store stays readable for peer resolution.

pub mod addr;
pub mod message;
pub mod nics;
pub mod node;
pub mod scheduler;
pub mod simulator;
