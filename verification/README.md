# relay_server

A zero-knowledge WebSocket relay for multiplayer character chat. Clients
encrypt everything they send; the relay forwards opaque frames, verifies the
host and guest tokens, tracks presence and the generation lock, and keeps all
state in memory.

## Layout

- `src/` is the verified library (Verus). Every function there carries a
  contract. Verus proves all of them except the small wrappers around the
  outside crates (in `crypto`, `queue` and `text`), whose contracts state
  what those crates document and are trusted:
  - `room_code`: the six-character room-code alphabet and the integer key a
    code is stored under;
  - `protocol`, `json`: client and server messages and the exact JSON text of
    every server message;
  - `config`: defaults and parsing of the environment settings;
  - `state`: rooms, participants, fan-out to the bounded per-participant
    queues, with a ghost log of every frame the room tried to queue;
  - `server`: the shared server state, connection limits and the per-address
    room-creation allowance;
  - `lobby`: room creation (fresh code, tokens, stored hashes);
  - `ws`: admission, the handling of each client message, departures,
    slow-consumer purges, the lock timer, the writer's decision per event and garbage collection of rooms;
  - `caching`: the `Cache-Control` policy;
  - `laws`: properties that relate several operations.
- `app/` is the program around the library: the axum routes, the socket
  reader and writer tasks, timers, and conversion to and from the serde
  types.
- `tests/` exercises the library with the real outside crates linked.
