# copymet

A copy-trading engine for Polymarket, verified with Verus. It watches a
target wallet, detects how its positions change between two polls, sizes
proportional copy trades, and decides the orders to send.

## Layout

- `src/` — the verified library.
  - `units.rs`: fixed-point units. Every amount is an integer of
    micro-units (six decimals): 0.55 USDC is `550_000`, 3 shares are
    `3_000_000`.
  - `text.rs`: decimal parsing (with exponents, as `f64::from_str` writes
    numbers) and formatting, ASCII case-insensitive comparison.
  - `types.rs`: the API data types.
  - `config.rs`: settings from environment variable values.
  - `auth.rs`: HMAC-SHA256 request signing (base64, hmac, sha2; the
    clock is std's, and an unusable clock is an error, not a panic).
  - `client.rs`: URLs, signed requests, orders, balance and value rules.
  - `sizer.rs`: proportional sizing with the minimum bet and per-trade cap.
  - `monitor.rs`: snapshots of the target's positions and their diff.
  - `executor.rs`: the plan for each change, slippage-protected prices,
    orders, and our tracked positions after each answer.
- `app/` — the program: environment, HTTP, JSON, logging and the polling
  loop. It converts the APIs' decimal numbers to and from micro-units.
- `tests/` — tests of the library on concrete values.

## Design notes

- Maps keyed by token id (the monitor's last snapshot, the executor's own
  positions) are vectors whose tokens are unique, stated as an invariant of
  each type; their views are the maps. Verus proves nothing of a std
  `HashMap` keyed by `String`, while a vector can be reasoned about entry by
  entry. The changes found between two snapshots therefore come in a fixed
  order: tokens of the new snapshot as reported, then tokens that
  disappeared, in the order of the old one.
- Amounts are unsigned: prices, balances and share counts of the APIs are
  never negative, and outcome tokens have six decimals, so micro-units lose
  nothing of a share count. Text is read as `f64::from_str` reads it, with
  the value truncated to micro-units: a negative number below one
  micro-unit (such as `-0.0`) reads as zero; any other negative number, an
  infinity or NaN has no integer value here, so parsing gives none and the
  caller's default applies.
- A wallet's value is its positions at their price plus its idle USDC; the
  data API reports positions only, so the application passes zero idle USDC
  for the target wallet.
