//! Actions: the primitive steps that builds and binds record and later execute.
pub mod types;
