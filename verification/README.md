# pidmesh

Process-aware memory and coordination for concurrent local agents: workspace-scoped
sessions, durable memories with full-text recall, direct and broadcast messages with
per-recipient acknowledgements, exclusive task leases, and an ordered event journal.

## Layout

- `src/` is the coordination kernel, written and proved with Verus. `Mesh` holds the
  tables; each operation takes the current time as an argument and is specified by a
  function on `MeshView`, the mathematical model of the tables. `MeshStore` reads the
  clock and the process table and runs those operations. `src/laws.rs` states and proves
  the properties that span operations: one owner per task, takeover after expiry,
  release on exit and on collection, per-recipient acknowledgements, workspace isolation,
  append-only memories, and the ordering of the journal.
- `app/` is the command line and the MCP tool server: it loads the tables from SQLite,
  runs one kernel operation in an immediate transaction, writes the tables back, and
  prints JSON.
- `tests/` exercises the kernel on concrete values.

## Running

`pidmesh <command>` runs one command of the command line against the database
(`--db` or `PIDMESH_DB`, else `~/.pidmesh/pidmesh.db`). The MCP tool server is the
subcommand `pidmesh mcp`: register that command with an MCP client in place of a separate server binary.
