//! A coordinator that spawns counter children and keeps a registry of them,
//! learning each child's address and value only from asynchronous replies.
pub mod contract;
pub mod laws;
pub mod msg;
pub mod number;
pub mod order;
pub mod reply;
pub mod state;
