# parachain_consensus

Verified building blocks of a parachain's consensus client, in Verus.

- `src/block.rs`: headers, digests and blocks.
- `src/codec.rs`: the encoding, the decoding and the hash of a header, by `parity-scale-codec` and
  `sp-runtime`.
- `src/relay.rs`: the relay chain's announcements of new best and of finalized heads, over the
  channels of `futures`.
- `src/import.rs`: setting up a block builder, completing a built block and preparing it for import.
- `src/follow.rs`: which block becomes the best one and which one is finalized, as the relay chain
  announces heads and blocks are imported.
- `src/tree.rs`: the tree of known blocks and what is left of it when a level has to make room.
- `src/levels.rs`: the monitor that bounds how many blocks share a level.
- `src/level_laws.rs`: what holds of the monitor, whatever blocks there are.

`app/` puts the library to work on the types of a client: streams, block builders and block
importers, the loop that follows the relay chain, and the importer that bounds the levels.
`tests/` runs the library on an in-memory chain.
