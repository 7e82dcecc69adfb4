//! Execution of builds and binds: result types, the execution DAG and shell selection.
pub mod types;
pub mod cmd;
pub mod fetch;
pub mod dag;
pub mod run;
pub mod apply;
pub mod resolver;
pub mod action_run;
