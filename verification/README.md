# qtm_graph

The core of a QTM (quantum transaction manifold) observer, as a verified library.

- `src/graph/slotmap.rs` — the event and surface store: events are kept under
  their commitment, surfaces under their coordinate, with activation, coordinate
  and sigma indexes that `insert` keeps consistent.
- `src/graph/idmap.rs` — the map keyed by 32-byte identities that the store uses.
- `src/graph/frame.rs` — `Depth` (a command path plus the objects realized along
  it, by position), `EventMap` (one event's receipt) and `Direction` (the
  transition boundary into the `quantom_value` manifold).
- `src/graph/manifold.rs` — the receipt types and the contracts of the calls
  made into `quantom_value::QuantPerm`.
- `src/dash.rs` — dashboard state: view selection and live values per activation.
- `app/` — the egui front end (drawing and screen geometry).
