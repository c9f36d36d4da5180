# dominos

The logic of a small camera front end for dominoes, verified with Verus.

- `src/chain.rs` — the depth-first search for the longest domino train from a
  starting number, its specification, and the proofs that the train it returns
  is a valid train and that no valid train is longer.
- `src/combo.rs` — answering a request line `START A,B A,B ...` (its shape is
  tested with the `regex` crate) with the longest train, written
  `[[a, b], [c, d], ...]`.
- `src/pips.rs` — the number of pips behind a detection label and the count of
  a photograph.
- `src/session.rs` — the session state and the decisions taken on each user
  action.
- `src/text.rs`, `src/number.rs` — words, comma fields, and `i32` reading and
  writing.
- `app/` — the yew page: camera, canvas capture, requests to the detection
  service, and rendering.
