# homeedge

A small control plane for smart-home edge nodes, with its logic verified in Verus.

The controller tracks nodes (registration, heartbeats, failure detection), keeps the
desired placement of services on healthy nodes, and moves services away from nodes that
go offline. Each node runs an agent that registers, reports heartbeats, and reconciles the
services it runs with the controller's assignments.

## Layout

- `src/` — the verified library. Every operation states its result in its contract over
  mathematical views (`Map`, `Seq`, `Set`):
  - `controller_state`, `node_registry`, `assignment_engine`, `reassignment`,
    `stale_nodes`, `listing`, `service_listing`, `state_flows`, `restore`: the controller's
    state machine (registration, heartbeats, service definitions, first-fit placement,
    reassignment from offline nodes, stale-node detection, ordered listings, restoring from
    stored records);
  - `agent_state`, `reconcile`, `service_runtime`, `controller_client`: the agent's state,
    reconciliation planning, service-task bookkeeping, and the rules for talking to the
    controller;
  - `storage_codec`, `int_parse`, `agent_config`, `controller_config`: decoding stored rows
    and settings;
  - `ids`, `time`, `text`, `collections`, `errors`, `node`, `service`, `api`: shared types
    and helpers.
  Proof functions state the library's laws, such as that placement is idempotent, that
  reassignment empties offline nodes and is idempotent (whenever no healthy record carries
  an offline record's identity), that one
  pass of the failure detector takes exactly the stale nodes offline, and that a
  reconciliation step brings the running services to the desired ones.
- `tests/` — tests of the library on concrete values.
- `app/` — the two programs around the library: `controller` (HTTP API with axum, SQLite
  storage with sqlx, the stale-node watcher) and `agent` (HTTP client with reqwest and the
  registration, heartbeat and reconciliation loops).
