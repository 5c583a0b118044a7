# enxame-tracker

A BitTorrent tracker whose core is verified with Verus.

- `src/` is the core. It does no input or output and does not read the clock.
  - `registry` holds the swarms: what an announce changes, what it is told of
    its swarm, and how stale peers are reaped. `id_map` is the map that it is
    made of, `order` the order of its keys.
  - `request` reads an announce from a request line, with `percent`, `number`
    and `addr` for percent-encoding, numbers and IP addresses, and `bytes` for
    splitting and searching.
  - `response` and `wire` write replies in bencode; the encoding itself is done
    by the `bencode` crate, whose behaviour `wire` states.
  - `http` tells when a request is complete, what it asks for, how it is
    answered, and how the answer is framed. `respond` is all of that at once.
  - `swarm_laws`, `request_laws`, `addr_laws`, `wire_laws` and `exchange_laws`
    state what holds of these as a whole.
- `app/` is the server: it accepts connections and moves bytes.
- `tests/` runs the core on examples.

Times are nanoseconds on a clock that does not go back.
