# spv_node

The decisions of a simplified-payment-verification node for Bitcoin, verified
with Verus.

- `src/download.rs` decides which headers and blocks to ask for. It takes what
  the network layer and the header chain report, and answers with actions to
  perform. `src/transition.rs` says what each event does, `src/walk.rs` which
  blocks are wanted at the start; `src/download_laws.rs` and
  `src/round_laws.rs` hold what is true over many events.
- `src/tracker.rs` is the wallet: the unspent outputs that pay to one script.
  `src/ledger.rs` says what a block does to them, `src/ledger_laws.rs` what
  follows from it.
- `src/peers.rs` chooses peers to dial, `src/echo.rs` names messages, and
  `src/spv.rs` holds the settings of the node.
- `src/chain.rs`, `src/digest.rs` and `src/random.rs` call the `murmel`,
  `bitcoin`, `bitcoin_hashes` and `rand` crates. What is assumed of those calls
  stands there.
- `app/` is the program: threads, sockets, the database file and the log.

No code here names `serde` and `serde_derive`. `Cargo.toml` holds them to a
version because the storage engine of `murmel` builds with no later one.
