# spartan_rust

A small proof-of-work blockchain: clients hold toy key pairs, sign and post
transactions, and keep a tree of blocks; miners gather transactions into
blocks and search for proofs of work. The library is written in Verus, and
each public function states what it does in `requires`/`ensures` over
mathematical models of its types.

Layout:

- `src/utils.rs`: hashing (SHA-256 through rust-crypto, hex through
  rustc-serialize), key pairs, signatures, addresses.
- `src/json.rs`: the JSON text of transactions and blocks, whose hashes are
  their ids.
- `src/strmap.rs`: an insertion-ordered map from strings to values, modelled
  as an association list.
- `src/transaction.rs`, `src/block.rs`, `src/blockchain.rs`: transactions,
  blocks and their ledgers, the genesis block.
- `src/client.rs`, `src/miner.rs`: what clients and miners do with the blocks
  and transactions they receive; messages for the network are returned as
  values.
- `src/waiting.rs`, `src/walk.rs`: why the nesting of waiting blocks and the
  walks back along block links need no more steps than they are given.
- `src/fakeNet.rs`: the registry of network participants.
- `app/`: the network simulation (delivery, delays, logging) around the
  library.
- `tests/`: tests of the library on concrete values.
