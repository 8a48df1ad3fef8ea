# bestlogs

Aggregates Twitch chat-log availability across justlog/rustlog instances and
recent-messages instances, ranks the instances, and serves lookup, redirect,
mirror and recent-messages endpoints.

The decision logic is a library verified with Verus; the server around it is
ordinary Rust.

- `src/` — the verified library: fuzzy channel search (`logs::search`,
  `logs::fuzzy`, `logs::topk`, `logs::shortcut`), per-instance channel lists
  (`logs::channels`), the per-host circuit breaker (`logs::health`), the
  lookup fan-out, ranking and response (`logs::instance`, `ranking`), the
  recent-messages backfill (`logs::recent_messages`), the mirror
  (`logs::mirror`), name history (`logs::namehistory`), cache weights and
  liveness (`state`), reload selection (`reload`), endpoint decisions (`web`),
  text handling (`text`, `util`, `order`), compiled patterns (`patterns`) and
  the benchmark's deterministic parts (`bench`).
- `app/` — the HTTP server (axum), outbound requests (reqwest), caches
  (moka, dashmap), background reloads, and the `fanout-bench` load generator
  (`bestlogs fanout-bench <cert.der> <key.der>`).
- `tests/` — tests of the library.

`config.json` in the working directory overrides the built-in defaults key by
key; `BESTLOGS_UMAMI_TOKEN` overrides `umamiStats.token`.
