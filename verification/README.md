# agnostic_orderbook

An orderbook for generic assets, written in Verus: each function of the
library carries a contract that Verus proves.

- `src/state/critbit.rs` — one side of the book: a critbit tree of orders
  keyed by order id, stored in arrays of leaves and inner nodes with free
  lists. Its contracts speak of `handles()` and `orders()`, the map from each
  order id to its leaf and to its quantity and callback information.
- `src/state/event_queue.rs` — the circular queue of fill and out events,
  modelled by `entries()`, the events oldest first.
- `src/state/orderbook.rs` — the matching engine. `spec_match` and
  `spec_new_order` state what a new order does to both sides of the book and
  to the queue; `new_order` is proved to do exactly that. The laws of the
  engine (totals within the order, fills at crossing prices, price-time
  priority of order ids) are proof functions there.
- `src/state/accounts.rs`, `src/state/layout.rs` — the byte layout of the
  slab, event queue and market accounts, with reading and writing proved
  against each other.
- `src/processor/` — the instructions' parameters and the decisions each one
  makes (cancelling, mass cancelling, closing, creating a market, fees).
- `src/critbit.rs` — the tagged node formats of a slot.
- `src/wasm/critbit.rs` — a slab as a JavaScript client reads it: slots of a
  fixed size, each holding a tagged node. The walks (lowest and highest
  order, orders in key order, price levels) are stated over the bytes of the
  slots. Where the tree keeps the critbit order, its keys and price levels
  are proved to come in order, and removing an order is proved to take
  exactly its key out of the keys in order.
- `app/` — the Solana program around the library (accounts, borsh-encoded
  instruction data, errors as program errors) and the client's entry points.
