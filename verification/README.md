# rustchain

A small proof-of-work blockchain whose rules are stated as contracts and
proved with Verus.

- `src/chain/` — canonical encoding, transactions, Merkle trees, blocks, the
  account ledger and the blockchain: difficulty retargeting, block acceptance,
  the mempool, whole-chain validation and heaviest-work chain replacement.
- `src/wallet/` — key pairs, addresses and signing.
- `src/network/` — message framing and what a node does about each message.
- `src/cli/` — the command types and the small decisions the commands make.
- `src/digest.rs`, `src/signature.rs`, `src/entropy.rs`, `src/clock.rs` — the
  only places that call SHA-256, hex, ed25519, randomness and the clock; each
  call carries the contract the library relies on.
- `app/` — the command-line program: argument parsing, files, printing, JSON
  and the async network runtime, all driving the library.
- `tests/` — tests of the library on concrete values.
