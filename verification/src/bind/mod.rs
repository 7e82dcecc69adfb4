//! Binds: side-effecting actions, how they are defined, and their state kept
//! in the store.
pub mod store;
pub mod state;
pub mod types;
pub mod def;
