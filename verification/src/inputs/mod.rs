//! Inputs: declarations, the dependency graph, lock files, the input store and resolution.
pub mod types;
pub mod graph;
pub mod order;
pub mod store;
pub mod lock;
pub mod source;
pub mod resolve;
pub mod fetch;
pub mod refs;

pub use types::{InputDecl, InputOverride, LockNode, LuaNamespace, ResolvedInput, MAX_FOLLOWS_DEPTH};
