# exchange

A limit order book exchange whose core is verified with Verus.

- `src/types.rs` — orders, book entries, receipts, transactions, errors.
- `src/accounting.rs` — the ledger of balances (deposit, withdraw, send) and
  its laws; `src/accounts.rs` — the standalone ledger with its own error type.
- `src/matching.rs` — the matching engine: book sides of price levels,
  price-time matching, the book's well-formedness and its preservation;
  `src/matching_laws.rs` — conservation, no self-trade, limit and priority.
- `src/trading_platform.rs` — order acceptance, matching and settlement of
  every fill by a transfer from buyer to seller, with the settlement laws.
- `src/cli.rs`, `src/requests.rs`, `src/tui.rs` — command parsing, request
  bodies and the order book viewer's state.
- `app/` — the HTTP server, the interactive ledger and client, and the
  terminal viewer around the library.
