# forest

The verified core of a Filecoin node, written in Verus.

- `src/state.rs`: state-tree versions, state roots and their CBOR encoding,
  with the round trip proved.
- `src/cbor.rs`: CBOR heads, read in every definite-length form and written in
  the shortest.
- `src/content_id.rs`: CIDs held as their binary form; reading one goes
  through the `cid` crate.
- `src/amount.rs`: token amounts of any size and their comparison.
- `src/mpool.rs`: the walk that gathers the messages pending against a tipset,
  and the checks made before a message is signed and pushed.
- `src/interopnet.rs`: parameters of the interop network.
- `app/`: the RPC handlers and wallet calls that drive the library, and the
  serde forms of the state types.
