# xtrace

A self-hosted backend for observability data: traces with their observations,
metric points and media files, kept in memory or in PostgreSQL and served over
HTTP, with one set of tokens per project.

The library in `src/` is written in Verus: its functions have contracts, which
Verus proves.

| Module | What it holds |
| --- | --- |
| `text`, `time`, `number`, `json`, `json_read`, `labels`, `order`, `encoding` | texts, instants, numbers carried by their bits, JSON values, sorting |
| `config` | the settings and how the environment gives them |
| `auth_context`, `auth`, `rate_limit`, `stats` | tokens and projects, which requests are let in, counts |
| `rows`, `maps`, `memory_db` | stored rows and the store in memory |
| `ingest` | batches of traces and observations |
| `label_governance`, `metrics` | metric points, the rules on their labels, how they are written |
| `metrics_query`, `metrics_daily`, `daily_pages`, `metrics_overview`, `sql` | queries over metric points and traces, in memory and as SQL |
| `media`, `media_store` | media files and the references to them |
| `retention` | what is kept and for how long |
| `projects`, `error` | answers to clients |

Outside crates are called through small functions whose doc comments say what is
taken for granted of them: `chrono` in `time`, `base64` in `encoding`,
`serde_json` in `json` and `json_read`, `uuid` in `metrics_overview`, `dashmap` in `maps`.

`app/` is the server around the library: routes, queues, the database, files, and
the arithmetic on floating point numbers.
