# codex_cont

A continue-thinking proxy for Responses-compatible APIs, with its logic verified in Verus.

The proxy stands between a coding agent and an upstream Responses endpoint. Where the usage of a
response shows that its reasoning was cut off (`reasoning_tokens == 518 * n - 2`), the proxy asks
the upstream to go on, and folds the streams of all rounds into one response. Reasoning reaches the
client as it comes; messages and function calls are held back until a round has proved to be the
last one.

## Layout

- `src/model.rs`: the fold as a machine, from state and event to next state and action
- `src/proxy.rs`: the machine as code, `Fold::step`
- `src/laws.rs`: what holds of a fold as a whole
- `src/events.rs`, `src/answer.rs`, `src/response.rs`, `src/usage.rs`: the parts of a folded
  response
- `src/codex.rs`: truncation counts and the requests that continue a response
- `src/app.rs`, `src/creds.rs`: what becomes of a request, and the headers it is sent with
- `src/sse.rs`: server-sent events, read and written
- `src/store.rs`: the reasoning ids that follow-up requests are repaired by
- `src/json.rs`, `src/value.rs`, `src/text.rs`: JSON values, JSON texts, texts
- `src/config.rs`, `src/logging.rs`, `src/lines.rs`, `src/cli.rs`, `src/service.rs`: settings, log,
  command line and Windows service
- `app/`: the program around the library: server, upstream connections, files

What the library takes from `serde_json`, `sha1`, `axum` and the standard library without proof is
declared where it is used, each time with a comment that says what is relied on.
