# btclib

The core of a small Bitcoin-like system, written in Verus. The functions of
`src/` carry contracts that Verus proves, except the few small wrappers
marked `#[verifier::external_body]` that call `sha256::digest`,
`hex::decode`, `uuid::Uuid::new_v4` and `String::push`: their contracts
are trusted.

- `src/u256.rs`: 256-bit numbers held as four 64-bit limbs; reading and
  writing them as little-endian bytes, comparison, lower-case hex.
- `src/sha256.rs`: `Hash`, the SHA-256 digest of serialized data read as a
  little-endian number, and the proof-of-work test `matches_target`.
- `src/types.rs`: blocks, block headers, transactions and the chain.
- `src/network.rs`: the messages that nodes and wallets exchange.
- `src/wallet.rs`: the wallet's unspent outputs, held per public key in
  ascending key order; balance, choosing the outputs that pay an amount and
  fee, building the transaction.
- `src/cli.rs`: the wallet's prompt: splitting a line into words and reading
  commands and amounts.
  The wallet program keeps the node's reports in a `crossbeam_skiplist::SkipMap`
  that its tasks share; the map changes through shared references, which no
  contract over a value can describe, so the library works on a `UtxoStore`
  built from the map's entries with the verified `insert_utxos`.
- `app/`: the wallet program around the library: configuration files, the
  node connection, CBOR encoding of messages, and the prompt loop.
