# ds_core

The core of a DeepSeek chat client, verified with Verus.

The library under `src/` holds what the client decides:

- `chat::frame`, `chat::reply`, `chat::patch`: server-sent event frames, what the
  backend answers besides events, and the patch protocol of a response;
- `chat::stream`: the event stream of a response, with its laws in `chat::order`
  (order of the events, end, independence of the chunks) and `chat::transcript`
  (the deltas spell out the response, and what the frames result in is handed out
  in order);
- `chat::wait`: the start and the end of a turn;
- `chat::session` and `chat`: the active sessions, what remains to be done for
  them, and how a request is routed;
- `accounts`: setup, proof of work and file upload as functions from a stage and
  what a call gave to the next stage;
- `text`, `json`, `encoding`, `error`, `config`: what the others are built on.

JSON is parsed by `serde_json` and bytes are decoded by the standard library; what
is assumed of them stands in `json` and `encoding`, and `String::push` in `text`.

`app/` is the client around the library: it awaits, sleeps, locks and logs, and
lets the library decide. The HTTP client, the account pool, the solver of proofs
of work and the composition of requests are traits there.
