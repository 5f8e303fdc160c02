//! Verified building blocks of a parachain's consensus client: blocks and their headers, the
//! heads that a relay chain announces, the preparation of blocks for import, the rules by which
//! the best and the finalized block follow the relay chain, and the bound on how many blocks may
//! share a level of the block tree.
pub mod block;
pub mod codec;
pub mod follow;
pub mod import;
pub mod level_laws;
pub mod levels;
pub mod relay;
pub mod tree;

