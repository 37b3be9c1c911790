# pool_api

The logic of a Zcash mining pool's dashboard API, written in Verus and
verified: what the handlers decide, parse and compute once their inputs are
read.

## Layout

- `src/` — the verified library.
  - `text.rs`: character classes, `str`-style splitting and trimming,
    substring search, numerals and their parsing.
  - `codec.rs`: hex and UTF-8 behind small trusted wrappers, and the lossy
    rendering of coinbase bytes.
  - `strmap.rs`: a map keyed by text with `HashMap` semantics.
  - `sorting.rs`: stable sort, largest key first.
  - `network.rs`: windows of the network page, address shortening, coinbase
    self-tags and domains, pool identification.
  - `blocks.rs`: reading a block's coinbase, recognising our blocks,
    classifying and grouping the window's blocks, totals.
  - `admin.rs`: the admin session (BLAKE2b key derivation and MAC, cookies,
    their expiry), the guard, login and logout, configuration checks.
  - `handlers.rs`: template freshness, counters, the public PPS health, the
    wallet health snapshot, the payout nudge, the maturity table, the stats
    history ring.
  - `diagnostics.rs`: live session counters of a miner.
  - `lwd_tip.rs`: aggregation of lightwalletd tip answers.
  - `sysinfo.rs`: figures read from `/proc` text.
- `tests/` — tests that run the library with the real outside crates.
- `app/` — the axum handlers, database and RPC reads, JSON shapes, float
  figures and the static pages.

Contracts are stated over spec functions of `Seq`, `Map` and integers; the
laws that relate several calls are public proof functions named `law_*`.
