# rinse

The core of a terminal radio player, verified with Verus, and the player around it.

- `src/` holds the logic: the ICY protocol (`icy`), stream addresses (`url`), the schedule and
  the show on air (`schedule`, `json`, `civil`), decoded audio (`pcm`), the screen (`frame`,
  `state`) and the command line (`args`), over text as sequences of characters (`text`).
- `app/` holds sockets, TLS, threads, child processes, the terminal, and the spectrum's
  floating-point arithmetic.
- `tests/` runs the library on concrete values.

What is taken on trust is marked `external_body`: the readings of a JSON document by
`serde_json`, and `String::from_utf8_lossy`.
