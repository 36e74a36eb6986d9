# pbft

A node of a PBFT-style agreement network. The decision logic is a verified
library (`src/`); the HTTP server around it is in `app/`.

- `src/node.rs` — the state of a node: stored proposals, rounds, favor counts,
  votes and live peers, with the steps that handle a new proposal, a favor
  signal and a vote, and the laws they keep (a vote is broadcast at most once,
  a client is answered at most once, every round has at least `3f + 1` members).
- `src/vote_table.rs` — the votes of one proposal, one per voter address.
- `src/metadata.rs` — proposals, votes and replies.
- `src/ips.rs` — node addresses: the list of known nodes, which peers to
  probe, and the URLs of their routes.
- `src/config.rs` — parsing the comma-separated node list.
- `app/` — the actix-web server, HTTP calls to peers, and the process-wide state.

Configure a node with `IP`, `PORT` and `NODES` (comma-separated `ip:port`
list), in the environment or in `node.env`.
