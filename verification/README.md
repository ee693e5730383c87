# uid

Time-sortable unique identifiers — ULID and UUID version 7 (RFC 9562) — as a
Verus-verified library.

Both formats put a 48-bit millisecond timestamp in their most significant bits,
so the order of the encoded values is the order of creation. Within one
millisecond, a `MonotonicClock` uses the random field as a counter.

## Layout

- `src/digits.rs` — big-endian digit views of a number, and the lemmas that
  relate digits, prefixes and order.
- `src/crockford.rs` — the Crockford base32 codec (`encode_crockford`,
  `decode_crockford`, `decode_digit`), `UlidError`, and the codec's laws
  (round trip, order preservation, case and alias insensitivity).
- `src/clock.rs` — `MonotonicClock`: the per-millisecond counter as a state
  machine, with the exact outcome of each request (`next_outcome`).
- `src/ulid.rs` — `ulid`, `ulid_at`, `ulid_timestamp_ms`, `ulid_system_time`,
  and the laws that ULIDs from one clock increase and carry their timestamp.
- `src/uuid.rs` — `Uuid`, `assemble_uuid7`, the hyphenated text, `uuid7`,
  `uuid7_at`, and the version-7 layout laws.
- `src/text.rs`, `src/time.rs` — strings from ASCII bytes, decimal numerals,
  and the `SystemTime` conversion.
- `app/main.rs` — the `uid` command: process-wide clocks, the wall clock and
  the operating system's random source.

The generators take the clock, the time and a source of random bytes as
arguments; the program in `app/` supplies them.
