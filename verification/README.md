# wecom-aibot-rust-sdk (verified core)

The decision logic of a WeCom AI-bot client, written in Verus and proved against
its contracts.

* `src/types.rs` — frames, headers, options, errors and command words.
* `src/utils.rs` — request ids (`prefix_millis_nonce`), decimal text, text comparison.
* `src/api.rs` — the HTTP helper client and the `Content-Disposition` filename grammar
  (RFC 5987 `filename*=UTF-8''…` preferred over `filename=…`), with percent-decoding.
* `src/reqset.rs` — sets of request ids and per-request-id reply queues.
* `src/ws.rs` — the connection manager as a state machine: authentication, heartbeat,
  frame dispatch and serial reply queues, each step stated by a spec function, with
  the laws of the connection proved over those functions.
* `app/` — the asynchronous runtime around the core: the WebSocket socket and its
  tasks, timers, JSON (de)serialisation of frames, HTTP downloads and logging.
