# openrooms

Collaborative rooms joined by a topology of doors, warps and one-way
passages, and sessions that bring agents into rooms, move them along the
connections and expel them.

## Layout

- `src/` — the verified library (Verus):
  - `topology.rs` — rooms and connections, the canonical connection key and
    its byte order, and the laws of connecting, disconnecting, opening and
    closing;
  - `pathfinding.rs` — walks through a topology and a breadth-first search
    proved to return a shortest walk, or none exactly when the target cannot
    be reached;
  - `room.rs` — rooms and the agents they hold;
  - `agent.rs` — agents by name, room and activity;
  - `session.rs` — bringing agents in, moving them through open connections
    the way they can be passed, and expelling them; every operation keeps
    the session's invariant (a room holds an agent exactly when the agent is
    recorded in that room, and the rooms are those of the topology), and a
    refused request leaves the session as it was.
- `app/` — the floating-point side (intention fields, energy budgets,
  entropy, disagreement) and the error messages, kept in step with the
  library, which makes every membership and connection decision.
- `tests/` — tests of the library.
