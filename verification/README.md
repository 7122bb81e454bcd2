# orderbook

A limit order book that matches by price and time, verified with Verus.

- `src/binary64.rs`: IEEE 754 binary64 numbers by their bit patterns: sign, order, minimum and a
  subtraction that is proved to round to the nearest number.
- `src/order.rs`: orders and sides.
- `src/side.rs`: one side of the book, a map from prices to doubly linked queues.
- `src/matching.rs`: how an incoming order trades with the other side.
- `src/book.rs`: the book, with an index of the resting orders by their id.
- `src/laws.rs`: what the book keeps over several calls.
- `src/session.rs`: what a client connection does with what comes in.
- `tests/`: tests, some of them against ordinary floating point.
- `app/`: the WebSocket server and client, and the book's doings on the console.

`Orderbook::insert_order` asks that the order's trades come to an end, which `Orderbook::settles`
tells: they do unless an infinite amount, or one that is not a number, meets an infinite one.

The best bid is the highest bid and the best ask the lowest ask, whatever comes in or leaves, and no
bid ever stands at or above an ask.
