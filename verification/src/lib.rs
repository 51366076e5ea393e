//! Verified core of the Fuel network watchtower: the rules by which blocks are
//! downloaded from the data-availability layer, reassembled from blob bundles,
//! buffered, emitted in height order and imported by the block syncer.
pub mod block_syncer;
mod btree_util;
pub mod cli;
pub mod client_ext;
pub mod downloader;
pub mod external;
