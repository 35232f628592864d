# whdr

A webhook router. Providers post webhooks over HTTP; small extension programs
check and answer them and turn them into events on channels; subscribers follow
channels over WebSockets, and resume from a cursor after a disconnect.

`src/` is the library, verified with Verus: the rules of the router, from who owns
a channel to when an extension is stopped. `app/` is the program around it: sockets,
processes, files, signals, the serialised forms of the messages, and the loops that
carry out what the library decides step by step. `tests/` holds the library's tests.

## The library

| Part | Modules |
| --- | --- |
| Channels and their owners | `channel`, `channel_claims` |
| Extensions | `discovery`, `extension_registration`, `daemon`, `supervisor`, `dispatch`, `dispatch_window` |
| Webhooks in | `ingest` |
| Events out | `subscribers`, `subscriber_ws`, `outbound_queue`, `delivery_log` |
| Tokens and control | `token_store`, `token_control`, `cli`, `config` |
| What is shown | `status`, `metrics` |
| The extensions themselves | `ext_kit`, `ext_dev`, `ext_github`, `ext_hmac`, `ext_teams` |
| The subscriber's side | `client`, `client_error`, `connection`, `cursor`, `frame`, `resume`, `session` |
| Messages and encodings | `messages`, `json`, `ndjson`, `encoding`, `digest`, `ids` |
| Strings and maps | `text`, `string_map` |
| Support for end-to-end tests | `harness` |

Strings are modelled as sequences of characters, and the contracts speak of the
values of a type: what a function gives back or leaves behind. Where that rests on a
random number or the clock, the contract says what holds of every outcome, and where
it rests on another crate, the contract speaks of a named result of that crate.
Properties that span functions stand beside them as public proof functions; each
says in its comment what it states. Among them: no two extensions ever own one
channel, an extension reaches no channel outside its namespace, an answer is
handed on once, a queue accounts for every event, a replay is complete and in
order, replay and live delivery together leave nothing out, a resuming subscriber
handles no event twice, sequence numbers never go back even when a log is pruned
empty and opened again, the token store keeps no token, and an extension is asked to
shut down only when it has drained or had its time to.

## What is taken on trust

The functions marked `external_body` call `base64`, `hex`, `hmac`, `sha1`, `sha2`,
`subtle`, `rand`, `chrono`, `uuid`, `serde_json`, `tungstenite`, `http` and a few
functions of the standard library. The comment above each says what is claimed of
the call.
