//! Room-based broadcast relay: a registry of rooms, each with a shared
//! last-writer-wins document and a membership list, and the per-connection
//! session state machine that drives them.

pub mod naming;
pub mod document;
pub mod room;
pub mod registry;
pub mod session;
