# syslua-lib

The core of SysLua, a declarative system configuration tool, written in
Verus: input declarations, lock files and the input dependency graph; the
execution DAG of builds and binds and the wave-by-wave execution plan with
failure propagation and rollback; placeholder resolution; the store layout,
garbage collection and the apply/destroy decisions; and what is read out of
the Lua configuration: input declarations, input values of builds and binds,
output tables, and the rules by which builds and binds join the manifest.

- `src/` — the verified library. Outside crates (`sha2`, `hex`, `petgraph`,
  `serde_json`) and the few `std` calls that touch the file system are
  reached through small trusted wrappers whose contracts are stated next to
  them. Functions whose answer is only what the file system holds
  (`bind_state_exists`, `build_exists_in_store`, `InputStore::entry_exists`)
  promise nothing of their result; the others state it in their contracts.
  JSON is handled as the library's own `json::JsonValue`, which `serde_json`
  reads and writes; editing it (the `.luarc.json` library list) is verified.
- `tests/` — tests of the library on concrete values.
- `app/` — unverified I/O around the library: reading and writing lock files,
  bind state and build markers as JSON, walking the store, running commands,
  and the drivers that carry out what the library's state machines decide
  (`ExecutionRun`, `ActionRun`, `ResolveState`, the apply and destroy
  phases), including realizing a build in the store and linking a build
  found in the parent store. Lua evaluation, git checkouts, HTTP downloads
  and running a node's actions are reached through traits the embedding
  program implements; the library takes what Lua returned as plain values
  (`lua::value`, `lua::inputs`, `outputs`).
