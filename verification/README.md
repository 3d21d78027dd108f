# offgrid_primitives

Order-book primitives of the Offgrid matching engine, verified with Verus.

- `src/` is the library. Every function in it carries a contract that Verus
  proves: price levels (`market`, `prices`, `spot::market`, `spot::prices`),
  order storage (`orders`, `spot::orders`), the spot order book, trading
  pairs and the matching engine (`spot::orderbook`, `spot::pair`,
  `spot::matching_engine`), their events (`spot::event`), accounts and their
  state hashes (`account`, `spot::account`), periodic housekeeping
  (`jobs`) and the server's port settings (`ports`). Public `law_*` proof
  functions state the properties that hold across operations.
- `tests/` runs the library on concrete values.
- `app/` is the server around the library: ZeroMQ order intake and event
  publishing, the event bus, Prometheus metrics and snapshots on disk.

Verify with `verus` on `src/lib.rs`; the outside crates are listed in
`Cargo.toml`.
