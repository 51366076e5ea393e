use watchtower::block_syncer::config::Config as BlockSyncerConfig;
use watchtower::cli::{downloader_config, CliError, Fuel, Opt, WatchtowerCommand};

fn url(s: &str) -> url::Url {
    url::Url::parse(s).unwrap()
}

fn command(relayer: Option<Vec<url::Url>>) -> WatchtowerCommand {
    WatchtowerCommand {
        relayer,
        block_sync_config: BlockSyncerConfig { fuel_sentry_url: url("http://sentry.example"), compression: 3600 },
        beacon_rpc_url: url("http://beacon.example"),
        blob_contract: [0xB0u8; 20],
    }
}

#[test]
fn downloader_config_takes_the_first_relayer_url() {
    let cmd = command(Some(vec![url("http://eth1.example"), url("http://eth2.example")]));
    let config = downloader_config(&cmd).ok().unwrap();
    assert_eq!(config.ethereum_rpc_url, url("http://eth1.example"));
    assert_eq!(config.beacon_rpc_url, url("http://beacon.example"));
    assert_eq!(config.blob_contract, [0xB0u8; 20]);
    assert_eq!(config.da_start_block, 0);
    assert_eq!(config.next_fuel_block, 0);
}

#[test]
fn downloader_config_needs_a_relayer() {
    assert!(matches!(downloader_config(&command(None)), Err(CliError::RelayerUrlMissing)));
}

#[test]
fn opt_holds_a_run_command() {
    let opt = Opt { command: Fuel::Run(command(None)) };
    let Fuel::Run(cmd) = opt.command;
    assert_eq!(cmd.block_sync_config.compression, 3600);
}
