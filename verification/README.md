# zeroclaw_runtime

Verified helpers of the ZeroClaw runtime, written in Verus.

* `src/` is the verified library.
  * `text.rs`: Unicode whitespace trimming, ASCII lower-casing, decimal
    rendering, and the string/sequence lemmas the other modules use.
  * `mqtt_bus.rs`: MQTT topic construction (`topic_for`), broker URL
    parsing, and the choice of the publisher's connection settings.
  * `mqtt_publish.rs`: the `mqtt_publish` tool: argument checks, the
    per-session, per-calendar-minute rate limiter, and the reported result.
  * `migration/`: the OpenClaw memory import: categories and keys
    (`entry.rs`), markdown notes (`markdown.rs`), the sqlite store's queries
    and rows (`sqlite.rs`), file names (`files.rs`), and the entry-by-entry
    import state machine (`import.rs`).
* `tests/` runs the library, including the sqlite queries against an
  in-memory database.
* `app/` is the unverified I/O around it: the process-wide MQTT publisher
  (rumqttc, tokio), the tool's JSON and clock plumbing, the import's file,
  sqlite and memory-backend access, and the tracing-to-OpenTelemetry bridge.
