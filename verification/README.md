# speed_daemon

A road speed-enforcement service: cameras report the number plates they
see, the server works out average speeds between sightings of the same car
on the same road, and dispatchers receive the resulting tickets, at most one
per car per day.

The library in `src/` is verified with Verus:

- `messages` — the binary protocol: message types, the decoder and encoder
  over a `bytes::BytesMut` buffer, with their byte-level specification;
  `roundtrip` proves that decoding gives back what was encoded and that a
  message cut short is never decoded.
- `session` — one connection as a state machine (unknown client, camera,
  dispatcher).
- `speed` — camera speed limits and plate sightings, and the tickets made
  from them.
- `tickets` — routing tickets to dispatchers, queueing them per road, and
  the one-ticket-per-car-per-day rule.
- `client` and `input` — the interactive client's menu dialog.
- `bytes_buf` and `text` — the contracts of the outside calls the library
  makes (the `bytes` buffer, UTF-8 decoding).

`app/` holds the executable: the tokio server and client, the codec trait
impls, the manager tasks, and the floating-point speed measurement.
