# dns

A small DNS message library, verified with Verus.

- `src/msg.rs`: a message in a caller's buffer (`Msg`): reading the header
  and the question of a query (`get_query`), refusing it (`deny`), writing
  answers after the question (`answer`), building a query (`mk_query`), and
  the header as `dig` prints it, and the demo server's policy (`reply`,
  `handle`). The proofs show, among other things, that a
  query built by `mk_query` reads back as the same question.
- `src/cvec.rs`, `src/order.rs`: `CVec`, a vector that keeps up to `C` items
  inline and moves to the heap beyond that; its equality and order.
- `src/codes.rs`: opcodes, response codes, classes and types, their names,
  and reading a type from text.
- `src/text.rs`: decimal numbers, characters of strings, UTF-8.
- `app/main.rs`: the demo server's socket loop on 127.0.0.1:1053.
