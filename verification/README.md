# reth-sentry-node

A lightweight Ethereum sentry node. It joins the peer-to-peer network, collects
pending transactions, validates them as far as that needs no chain state, and
passes each new one on to backends over WebSocket and HTTP. It keeps recent
blocks in memory to answer the requests of its peers. It does not sync the chain.

- `src/` is the library, verified with Verus: what the node decides and computes.
  - `recency`, `lru_cache`: the model of a least-recently-used map, and the maps
    of the `lru` crate stated in terms of it
  - `rlp`, `block`: block headers and bodies
  - `block_cache`, `block_file`, `block_import`: the cache of announced blocks, and
    the file that it is kept in
  - `history`: what a cache holds after any series of calls
  - `eth_proxy`: answers to the requests of peers
  - `dedup`, `forwarder`, `ws_server`: forwarding of transactions
  - `validator`: validation of transactions
  - `network`, `node_key`, `config`, `text`: the rest
- `app/` is the program around it: sockets, files, tasks and the `reth` network
  stack.
- `tests/` runs the library with the crates that it calls.
