//! Builds: how they are defined, where their outputs live in the store and
//! when a stored build can be reused.
pub mod store;
pub mod execute;
pub mod def;
