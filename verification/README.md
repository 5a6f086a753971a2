# leit

Shared building blocks of the Leit apps, written in Verus and verified.

- `auth`, `jwt`, `base64`, `json`: Supabase request shaping (headers,
  token-refresh request), parsing of a token-refresh response into a
  session, and reading the `sub`, `email` and `exp` claims of a JWT without
  checking its signature. JSON is read through `serde_json`; the trusted
  items in `json` say what the library relies on of it.
- `item`, `deck`, `schedule`: a Leitner-box spaced repetition deck over
  string keys. `schedule` holds the model the deck's contracts are stated
  in, and the facts proved of it (counts cover the candidates, the pool
  `next_item` picks from, waits until the next due item, and so on).
- `clock`, `random`: the machine's clock and `rand`'s generator. Every
  operation that reads the clock has a variant that takes the time (`*_at`)
  and carries the exact contract; for `next_item`, whose pick is random,
  that variant is `review_pool_at`, which gives the pool it picks from.

`app/` holds serde copies of the data types (with conversions both ways)
and JSON save/load of a deck.
