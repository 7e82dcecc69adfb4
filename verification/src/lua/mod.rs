//! Input declarations as Lua files state them: the values the parsers read,
//! and the parsers of an entrypoint's `inputs` table.
pub mod value;
pub mod entrypoint;
pub mod inputs;
pub mod ctx_methods;
