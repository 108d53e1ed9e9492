# chainlink_ingest

Ingests Chainlink crypto prices from a WebSocket feed into Postgres.

- `src/` is the verified library (Verus): configuration from environment
  values (`config`), the data types (`models`), the reconnect/backoff policy
  and the handling of frames and messages of one feed connection (`ws`), and
  the batching of rows before they are written (`batch`).
- `app/` is the program around it: reading the environment, the WebSocket
  and database I/O, the tokio tasks, and the serde forms of the messages.
- `tests/` exercises the library on concrete values.
