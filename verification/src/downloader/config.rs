//! Settings of the downloader.
use vstd::prelude::*;

verus! {

/// Where the downloader reads from, and from where on.
pub struct Config {
    /// URL to the Ethereum RPC endpoint.
    pub ethereum_rpc_url: url::Url,
    /// URL to the Ethereum consensus/beacon layer RPC endpoint.
    pub beacon_rpc_url: url::Url,
    /// Contract to monitor for new blobs.
    pub blob_contract: [u8; 20],
    /// DA block to start downloading from.
    pub da_start_block: u64,
    /// Emit fuel blocks starting from this block. DA start block should point to this Fuel block.
    pub next_fuel_block: u32,
}

impl Config {
    /// A configuration that starts at DA block 0 and Fuel block 0.
    pub fn new(ethereum_rpc_url: url::Url, beacon_rpc_url: url::Url, blob_contract: [u8; 20]) -> (c: Self)
        ensures
            c.ethereum_rpc_url == ethereum_rpc_url,
            c.beacon_rpc_url == beacon_rpc_url,
            c.blob_contract == blob_contract,
            c.da_start_block == 0,
            c.next_fuel_block == 0,
    {
        Config { ethereum_rpc_url, beacon_rpc_url, blob_contract, da_start_block: 0, next_fuel_block: 0 }
    }

    pub fn set_da_start_block(&mut self, da_start_block: u64)
        ensures
            *final(self) == (Config { da_start_block, ..*old(self) }),
    {
        self.da_start_block = da_start_block;
    }

    pub fn set_next_fuel_block(&mut self, next_fuel_block: u32)
        ensures
            *final(self) == (Config { next_fuel_block, ..*old(self) }),
    {
        self.next_fuel_block = next_fuel_block;
    }
}

} // verus!
