# soc_pipeline

The verified core of a small Linux SOC pipeline: agents forward auditd logs
over TCP; the server stamps each line with its sender and arrival time,
regroups the lines of one audit event, builds a structured event from them
and scores the machine it came from.

- `src/` — the library, verified with Verus:
  - `text` — tokenising, decimal forms, UTF-8 byte slicing, trimming;
  - `server` — framing of the received text into stamped lines;
  - `groups` — the buffer that gathers the lines of one event until it is complete;
  - `parser`, `auditd` — keying lines by event id, building `Log`s;
  - `analyzer` — machine identifiers and score changes;
  - `outside` — the calls into `regex`, `fastrand`, `sha2` and `serde_json`, with their contracts.
- `app/` — the program around it: TCP, tokio tasks, SQLite, configuration.
- `tests/` — tests of the library.
