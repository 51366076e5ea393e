//! The command line of the watchtower, as the library sees it, and the settings of
//! the downloader that a run command yields.
use vstd::prelude::*;

use crate::block_syncer::config::Config as BlockSyncerConfig;
use crate::downloader::Config as DownloaderConfig;
use crate::external::clone_url;

verus! {

/// The watchtower's command line.
pub struct Opt {
    pub command: Fuel,
}

/// The watchtower's commands.
pub enum Fuel {
    Run(WatchtowerCommand),
}

/// Run the Fuel network watchtower: what the library reads of the command.
pub struct WatchtowerCommand {
    /// The layer-one RPC URLs that the node's relayer is given, if any.
    pub relayer: Option<Vec<url::Url>>,
    pub block_sync_config: BlockSyncerConfig,
    /// URL to the Ethereum consensus/beacon layer RPC endpoint.
    pub beacon_rpc_url: url::Url,
    /// Contract to monitor for new blobs.
    pub blob_contract: [u8; 20],
}

/// Why a run command cannot start.
#[derive(Clone, Copy, Debug, PartialEq, Eq)]
pub enum CliError {
    /// The downloader needs the relayer's URL.
    RelayerUrlMissing,
}

/// The downloader's settings for a run command: the first relayer URL as the
/// Ethereum RPC endpoint, the command's beacon URL and contract, and starting points
/// that the syncer sets later.
pub fn downloader_config(command: &WatchtowerCommand) -> (r: Result<DownloaderConfig, CliError>)
    requires
        command.relayer matches Some(urls) ==> urls@.len() > 0,
    ensures
        command.relayer is None ==> r == Err::<DownloaderConfig, CliError>(CliError::RelayerUrlMissing),
        command.relayer matches Some(urls) ==> r == Ok::<DownloaderConfig, CliError>(
            DownloaderConfig {
                ethereum_rpc_url: urls@[0],
                beacon_rpc_url: command.beacon_rpc_url,
                blob_contract: command.blob_contract,
                da_start_block: 0,
                next_fuel_block: 0,
            },
        ),
{
    match &command.relayer {
        None => Err(CliError::RelayerUrlMissing),
        Some(urls) => Ok(
            DownloaderConfig {
                ethereum_rpc_url: clone_url(&urls[0]),
                beacon_rpc_url: clone_url(&command.beacon_rpc_url),
                blob_contract: command.blob_contract,
                da_start_block: 0,
                next_fuel_block: 0,
            },
        ),
    }
}

} // verus!
