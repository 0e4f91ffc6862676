# deepseek_demo

A command-line chat agent with memory.  Its library carries machine-checked
contracts and proofs for all of its logic.

- `src/` — the verified library:
  - `model.rs`: the chat API's message types and their views;
  - `text.rs`: character-level helpers (trimming, substring search, joining, decimal);
  - `context.rs`: message construction, character counting, context trimming, summaries;
  - `recall.rs`: keyword extraction and keyword-overlap ranking of long-term memories;
  - `agent.rs`: the session state (long-term memories, summary, recent messages) and the context built for each request;
  - `stream.rs`: decoding of streamed replies (`data: ...` lines ended by `data: [DONE]`);
  - `session.rs`: command parsing and session directory names;
  - `trusted.rs`: the calls into std and `serde_json` whose contracts are taken on trust.
- `app/` — the program: terminal I/O, files, the HTTP request and the JSON shapes.
- `tests/` — tests of the library on concrete values.
