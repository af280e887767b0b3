# musubi

A client core for server-owned state that arrives over a Phoenix channel, as a
library whose behaviour is stated in contracts and proved by Verus.

- `src/state/` holds the replicated state tree: values and pointers, the arena of
  nodes, transactions that apply a batch of patches and stream operations or leave
  the tree as it was, reconciliation by identity, and what subscribers are told.
- `src/phoenix/` holds the channel protocol: frames, the endpoint address, the
  backoff ladder, and the decisions of the one task that owns the socket.
- `app/` is the ordinary Rust around both: the async socket driver, subscriptions
  with callbacks, serde copies of the wire types.
- `tests/` runs the library from outside.

Each executable function is specified by a model: `state::model` says what a batch
does to a tree, `phoenix::hub` what a request or a frame does to the task.
`state::laws`, `phoenix::laws` and `phoenix::answers` state what holds of these
models as a whole. Calls into `slotmap`, `serde_json` and parts of `std` stand
behind wrappers whose contracts are taken as given; each wrapper's comment says
what it claims.
