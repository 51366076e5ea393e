use fuel_core_compression::VersionedCompressedBlock;
use watchtower::block_syncer::block_fetcher::{
    chunk_ranges, decode_compressed_blocks, graphql_sync_ranges, page_request, PageRequest,
};
use watchtower::block_syncer::compression_database::Compression;
use watchtower::block_syncer::{
    compression_sync_range, downloader_start, on_compressed_block, plan_da_import, task_next_action,
    take_mint, CompressionAction, ImportPlan, SyncError, TaskEvent, TaskNextAction,
};
use fuel_core_types::fuel_tx::field::{InputContract, MintGasPrice};
use watchtower::downloader::Config;

fn mock_block_bytes(height: u32) -> Vec<u8> {
    let mut block = VersionedCompressedBlock::default();
    match block {
        VersionedCompressedBlock::V0(ref mut v0) => {
            v0.header.consensus.height = height.into();
        }
        #[allow(unreachable_patterns)]
        _ => panic!("unexpected block version"),
    }
    postcard::to_allocvec(&block).unwrap()
}

#[test]
fn compression_database_description() {
    assert_eq!(Compression::version(), 0);
    assert_eq!(Compression::name(), "compression".to_string());
    assert_eq!(Compression::prefix(), None);
}

#[test]
fn page_request_for_a_range() {
    assert_eq!(page_request(77, 110), Some(PageRequest { cursor: 76, results: 33 }));
    assert_eq!(page_request(0, 3), Some(PageRequest { cursor: 0, results: 3 }));
    assert_eq!(page_request(5, 5), None);
    assert_eq!(page_request(6, 5), None);
    assert_eq!(page_request(0, u32::MAX), Some(PageRequest { cursor: 0, results: -1 }));
}

#[test]
fn chunks_of_forty() {
    assert_eq!(chunk_ranges(1, 101), vec![(1, 41), (41, 81), (81, 101)]);
    assert_eq!(chunk_ranges(0, 40), vec![(0, 40)]);
    assert_eq!(chunk_ranges(10, 10), vec![]);
    assert_eq!(chunk_ranges(u32::MAX - 1, u32::MAX), vec![(u32::MAX - 1, u32::MAX)]);
}

#[test]
fn graphql_sync_starts_after_the_local_chain() {
    assert_eq!(graphql_sync_ranges(9, 55), vec![(10, 50), (50, 55)]);
    assert_eq!(graphql_sync_ranges(55, 55), vec![]);
    assert_eq!(graphql_sync_ranges(u32::MAX, u32::MAX), vec![]);
}

#[test]
fn compression_sync_range_window() {
    assert_eq!(compression_sync_range(1000, 100, None), Ok((900, 1000)));
    assert_eq!(compression_sync_range(1000, 100, Some(950)), Ok((951, 1000)));
    assert_eq!(compression_sync_range(1000, 100, Some(10)), Ok((900, 1000)));
    assert_eq!(compression_sync_range(50, 100, None), Ok((1, 50)));
    assert_eq!(compression_sync_range(50, 100, Some(u32::MAX)), Ok((u32::MAX, 50)));
    assert_eq!(compression_sync_range(50, 1u64 << 32, None), Err(SyncError::RetentionTooLong));
}

#[test]
fn compressed_block_actions() {
    assert_eq!(on_compressed_block(None, None), (CompressionAction::Skip, None));
    assert_eq!(on_compressed_block(Some(3), None), (CompressionAction::Stop, Some(3)));
    assert_eq!(on_compressed_block(None, Some(4)), (CompressionAction::Commit, Some(4)));
    assert_eq!(on_compressed_block(Some(3), Some(4)), (CompressionAction::Commit, Some(4)));
}

#[test]
fn import_plans() {
    // known block: skipped
    assert_eq!(
        plan_da_import(5, 10, Some(7)),
        ImportPlan { skip: true, execute: false, commit_compression: false }
    );
    // on chain, but compression data missing: only the compression is committed
    assert_eq!(
        plan_da_import(8, 10, Some(7)),
        ImportPlan { skip: false, execute: false, commit_compression: true }
    );
    // above the chain: executed and committed
    assert_eq!(
        plan_da_import(11, 10, Some(10)),
        ImportPlan { skip: false, execute: true, commit_compression: true }
    );
    // no compression data at all
    assert_eq!(
        plan_da_import(3, 10, None),
        ImportPlan { skip: false, execute: false, commit_compression: true }
    );
    assert_eq!(
        plan_da_import(0, 10, None),
        ImportPlan { skip: false, execute: false, commit_compression: false }
    );
}

#[test]
fn downloader_starts_after_the_latest_compression() {
    let config = Config::new(
        url::Url::parse("http://eth.example").unwrap(),
        url::Url::parse("http://beacon.example").unwrap(),
        [1u8; 20],
    );
    let config = downloader_start(config, 6894445, 0x00d56db1);
    assert_eq!(config.da_start_block, 6894445);
    assert_eq!(config.next_fuel_block, 0x00d56db2);
}

#[test]
fn task_continues_only_after_an_import() {
    assert_eq!(task_next_action(TaskEvent::Imported), TaskNextAction::Continue);
    assert_eq!(task_next_action(TaskEvent::ImportFailed), TaskNextAction::Stop);
    assert_eq!(task_next_action(TaskEvent::DownloadFailed), TaskNextAction::Stop);
    assert_eq!(task_next_action(TaskEvent::StreamEnded), TaskNextAction::Stop);
    assert_eq!(task_next_action(TaskEvent::Stopping), TaskNextAction::Stop);
}

#[test]
fn compressed_blocks_skip_missing_heights() {
    let fetched = vec![Some(mock_block_bytes(3)), None, Some(mock_block_bytes(5))];
    let blocks = decode_compressed_blocks(fetched).ok().unwrap();
    let heights: Vec<u32> = blocks.iter().map(|b| b.height()).collect();
    assert_eq!(heights, vec![3, 5]);
    assert!(decode_compressed_blocks(vec![Some(vec![])]).is_err());
    assert!(decode_compressed_blocks(vec![None, None]).ok().unwrap().is_empty());
}

fn mint(gas_price: u64, recipient: u8) -> fuel_core_types::fuel_tx::Transaction {
    let mut m = fuel_core_types::fuel_tx::Mint::default();
    *m.gas_price_mut() = gas_price;
    m.input_contract_mut().contract_id = fuel_core_types::fuel_tx::ContractId::from([recipient; 32]);
    fuel_core_types::fuel_tx::Transaction::Mint(m)
}

#[test]
fn take_mint_reads_the_last_transaction() {
    let mut txs = vec![mint(1, 1), mint(17, 5)];
    assert_eq!(take_mint(&mut txs), Some((17, [5u8; 32])));
    assert_eq!(txs.len(), 1);
}

#[test]
fn take_mint_of_no_transactions_is_none() {
    let mut txs = Vec::new();
    assert_eq!(take_mint(&mut txs), None);
}

#[test]
fn take_mint_needs_a_mint_last() {
    let script = fuel_core_types::fuel_tx::Transaction::Script(Default::default());
    let mut txs = vec![mint(1, 1), script];
    assert_eq!(take_mint(&mut txs), None);
    assert_eq!(txs.len(), 1);
}
