# lobme_rs

A small limit-order-book matcher for one market, with integer tick prices and lot
quantities. Commands are processed in order; a new order trades against the opposite side
best price first, at the resting maker's price, and what is left rests at its own limit
price. Within a price level the executable lots are shared out either FIFO (oldest order
first) or pro-rata (in proportion to remaining lots, rounded down, with the leftover lots
going to the oldest eligible orders). Accepted order IDs are never reused.

The library is written in Verus and verified.

- `src/model.rs` — commands, orders, events and snapshots.
- `src/allocation.rs` — the FIFO and pro-rata share of each order at one level, and
  `allocate`, which computes them.
- `src/book.rs` — one side of the book as a mathematical value: sorted levels, a matching
  pass, resting and cancelling, with lemmas showing each keeps the side sorted and indexed.
- `src/market.rs` — the whole engine as a value (`EngineView`), what each command does to
  it (`apply_spec`), and the consistency invariant (`valid`) every command keeps.
- `src/engine.rs` — `Engine`: `new`, `apply` and `snapshot`, proved to follow `apply_spec`
  and never to fail on a consistent engine.
- `src/parse.rs` — reading `buy|sell ID PRICE QTY` and `cancel ID` lines; only the trimmed
  text before `#` counts.
- `src/laws.rs` — properties across inputs and commands: lot conservation, price priority,
  maker-price execution, time priority under FIFO, pro-rata rounding, no ID reuse,
  cancellation (which restores the book for an order that never traded), levels kept in
  acceptance order across any sequence of commands, and snapshot order.
- `app/main.rs` — the command-line program: reads lines from standard input, hands commands
  to one matcher thread through a bounded channel, and prints the events and the final book.

Usage of the program: `lobme [fifo|pro-rata] < orders.txt`.
