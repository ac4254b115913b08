# hyperscale

The verified core of a sharded ledger: executable Rust whose behaviour is stated
in contracts and proved by Verus.

- `src/bridge`: published packages, signed envelopes and what they declare, with
  their one wire encoding.
- `src/engine`: planning and running a batch, walking a manifest, folding kernel
  receipts, publishes, previews, fees, genesis, and the projection of an
  execution onto a shard.
- `src/execution`: what other shards provision, what a batch hands its wave, and
  what each delegated action comes to.
- `src/mempool`: which cells are held in flight and which transactions are ready.
- `src/node`: provisions, the serving of requests for them, and what a proposal
  gathers.
- `src/storage`: keys, updates, writes, history and the canonical writes root.
- `src/crypto`: consensus and transaction keys.
- `src/scenarios`: the casts, envelopes, funding and verdicts of the scenarios
  that drive a cluster.
- `app`: guest engines, stores, delegated actions and clusters around the
  library.

Results of outside crates enter through functions marked `external_body`; the
comment above each one says what is claimed of the call.
