# manifold

A realtime pub/sub engine, verified with Verus.

`src/` is the engine: channel glob permissions (`auth`), namespace access policy
(`namespace`), the configuration model (`config`, `env`), per-channel streams with offsets,
bounded history and recovery (`broker`), local routing of replies (`hub`, `delivery`), the
orchestration of client commands and of the Server API (`api`), the Redis key layout and the
decisions taken on what Redis answers (`redis`), the server's HTTP-side decisions (`server`),
and the load generator's arithmetic (`loadtest`). Verus proves each function there against its
contract; the few functions that call an outside crate (the concurrent maps, the reply queues,
the clock, token signing and checking, base64) do so through small trusted wrappers whose
contracts say what those crates do. The wrapper that hands a reply to a connection's queue
(`try_send`) states it as a step of the connection table's record of hand-overs, and that record
is the hub's send log, so the contracts of the operations state which connections' queues are
handed which pushes (whether a full queue took one is not stated). Laws that relate several
operations (undoing a subscription, an idempotent retry, recovery without gaps, history over
many publishes, the channel count) are public proof functions next to the code they speak of.

`app/` is the program around it: configuration loading, the WebSocket and SSE transports, the
HTTP Server API, the admin UI, health and metrics endpoints, the lifecycle webhook, and the
`loadtest` subcommand.

Channel state (offsets, history, presence, idempotency keys) lives in the in-memory broker of
each node. With Redis enabled, Redis carries control commands (forced disconnects, server
unsubscribes) to every node; publications, history and presence are not shared between nodes.
The Redis key layout and the decisions on Redis answers are in `src/redis.rs`, and the Redis
round trips for a shared broker are in `app/redis_broker.rs`, not yet used by the engine.
