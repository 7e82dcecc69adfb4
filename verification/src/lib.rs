//! Core types and logic for SysLua: inputs, lock files, dependency graphs and execution planning.
use vstd::prelude::*;

pub mod strmap;
pub mod text;
pub mod digest;
pub mod hash;
pub mod inputs;
pub mod bind;
pub mod execute;
pub mod build;
pub mod gc;
pub mod action;
pub mod json;
pub mod init;
pub mod sys_path;
pub mod lua;
pub mod eval;
pub mod outputs;

verus! {
} // verus!
