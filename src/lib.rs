//! A fully connected, layered feed-forward network: its topology, the placement
//! of its parameters, its wiring and the order of its forward pass.
//!
//! The numeric value type is left to the caller; the arithmetic of a forward
//! pass is handed in as functions, and every contract speaks of their
//! postconditions.

pub mod activation;
pub mod shape;
pub mod network;
