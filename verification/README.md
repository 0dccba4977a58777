# prometheus-scrape-rs

A lightweight Prometheus scraping agent: it scrapes exposition endpoints and
forwards all samples to remote storage via the remote-write protocol, with
behaviour that is stated in contracts and proved by Verus.

- `src/` is the verified library: configuration rules, service discovery,
  relabeling, the exposition parser, scrape processing and staleness tracking,
  batching, the two remote-write encodings, retry decisions, the web
  endpoint's routing and the agent's own metrics.
- `tests/` runs the library on concrete values.
- `app/` is the agent around it: command line, files, HTTP, timers, Kubernetes
  watches and the serde side of the configuration.

## How the library is laid out

| Module | What it decides |
| --- | --- |
| `config` | types, defaults, validation, durations, sizes, `$(VAR)` references |
| `relabel`, `pattern` | the relabeling actions, on anchored expressions |
| `parser`, `exposition` | the text format, and that what is written is read back |
| `sd`, `sd_k8s` | target groups from files and Kubernetes objects |
| `scrape` | targets, label conflicts, report series, staleness, target changes |
| `remote_write` | batches, requests, responses, backoff |
| `model`, `wire` | series and their protobuf encoding, and a reader for it |
| `telemetry`, `web`, `agent`, `auth`, `pgo` | own metrics, routes, reloads, credentials, training |
| `text`, `time`, `float`, `hash`, `label_map`, `seqs` | what the others share |

Doubles are carried as their bits. Reading and printing their text is handed in
by the caller.
