# backend

The matching engine of a market simulation, verified with Verus.

- `src/orderbook.rs`: order books with price-time priority (limit,
  fill-or-kill and market orders, cancellation, volume reduction, L1/L2
  views), specified by `spec_insert_order` and friends, with the laws that
  volume is conserved, limits are respected, all-or-nothing orders are filled
  completely, the book stays uncrossed and no empty price level is left.
- `src/market.rs`, `src/exchange.rs`: markets and the exchange that settles
  trades into a balance book; `Exchange::handle_command` is specified by
  `spec_handle`; every command keeps the sum of the balances of each asset
  modulo 2^64 (balances wrap), so balances that sum to zero keep doing so.
- `src/session.rs`: the agreement between the order records of a session
  and the books (every resting order is a live order, resting once with the
  remaining volume of its record, and every live order rests), kept by every
  command, with what it gives: a cancelled order leaves every book, a
  lowered order keeps what remains of it or is filled, and no trade takes
  more from an order than remains of it.
- `src/balance_book.rs`, `src/balance_manager.rs`: balances per asset and
  account.
- `src/market_handler.rs`: the decisions of a market handler (adding a
  market, taking an order and the balance changes of its trades), and the
  assignment of markets to handlers.
- `src/util/mp_command_codec.rs`: the two-byte length framing of command
  buffers, with its round-trip law.
- `app/`: the TCP / WebSocket server, MessagePack encoding, the exchange,
  balance manager and market handler tasks, and metrics.
