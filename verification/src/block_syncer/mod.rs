//! The decisions of the block syncer: which heights to fetch from the GraphQL node,
//! what to do with each compressed block it returns, how a block that arrives from
//! the data-availability layer is imported, and where the downloader starts.
use vstd::prelude::*;

pub mod block_fetcher;
pub mod compression_database;
pub mod config;

use crate::downloader::Config as DownloaderConfig;
use crate::external::{mint_fields, mint_of};
use fuel_core_types::fuel_tx::Transaction;

verus! {

/// Why the compression data cannot be synced.
#[derive(Clone, Copy, Debug, PartialEq, Eq)]
pub enum SyncError {
    /// The compression retention, in seconds, does not fit a block height.
    RetentionTooLong,
}

/// The heights whose compression data is synced from the GraphQL node, as a range
/// `start..target`: one block per second is assumed, so the window reaches back the
/// retention time from the target, but never to the latest height whose compression
/// data is already held, nor below height 1.
pub fn compression_sync_range(target: u32, retention_secs: u64, latest: Option<u32>) -> (r: Result<
    (u32, u32),
    SyncError,
>)
    ensures
        retention_secs > u32::MAX ==> r == Err::<(u32, u32), SyncError>(SyncError::RetentionTooLong),
        retention_secs <= u32::MAX ==> ({
            let from_window = if target >= retention_secs { target - retention_secs } else { 0 };
            let after_latest = match latest {
                Some(h) => if h == u32::MAX { h as int } else { h + 1 },
                None => 1,
            };
            r == Ok::<(u32, u32), SyncError>(
                ((if from_window >= after_latest { from_window } else { after_latest }) as u32, target),
            )
        }),
{
    if retention_secs > 4294967295u64 {
        return Err(SyncError::RetentionTooLong);
    }
    let window = retention_secs as u32;
    let from_window = target.saturating_sub(window);
    let after_latest = match latest {
        Some(h) => h.saturating_add(1),
        None => 1,
    };
    let start = if from_window >= after_latest { from_window } else { after_latest };
    Ok((start, target))
}

/// What to do with one answer while syncing compression data.
#[derive(Clone, Copy, Debug, PartialEq, Eq)]
pub enum CompressionAction {
    /// Stop syncing: the node has no data where we already had some.
    Stop,
    /// Skip this height: no compression data is held yet and the node has none for it.
    Skip,
    /// Commit the block's compression data.
    Commit,
}

/// Decides what to do with the compressed block the node returned for a height
/// (`None` when it had none), given the latest height with compression data; returns
/// the action and the latest height afterwards.
pub fn on_compressed_block(latest: Option<u32>, fetched_height: Option<u32>) -> (r: (
    CompressionAction,
    Option<u32>,
))
    ensures
        fetched_height is None && latest is Some ==> r == (CompressionAction::Stop, latest),
        fetched_height is None && latest is None ==> r == (CompressionAction::Skip, latest),
        fetched_height matches Some(h) ==> r == (CompressionAction::Commit, Some(h)),
{
    match fetched_height {
        None => {
            if latest.is_some() {
                (CompressionAction::Stop, latest)
            } else {
                (CompressionAction::Skip, latest)
            }
        },
        Some(h) => (CompressionAction::Commit, Some(h)),
    }
}

/// Takes the last transaction off a decompressed block's transactions, which must be
/// its mint transaction, and returns the mint's gas price and the contract that
/// receives the coinbase; `None` where there is no transaction or the last one is
/// not a mint. The other transactions are left in order for re-execution.
pub fn take_mint(transactions: &mut Vec<Transaction>) -> (r: Option<(u64, [u8; 32])>)
    ensures
        old(transactions)@.len() == 0 ==> r is None && final(transactions)@ == old(transactions)@,
        old(transactions)@.len() > 0 ==> final(transactions)@ == old(transactions)@.drop_last(),
        old(transactions)@.len() > 0 ==> r == mint_of(old(transactions)@.last()),
{
    match transactions.pop() {
        None => None,
        Some(tx) => mint_fields(&tx),
    }
}

/// How a compressed block from the data-availability layer is imported.
#[derive(Clone, Copy, Debug, PartialEq, Eq)]
pub struct ImportPlan {
    /// The block is known already: nothing is done.
    pub skip: bool,
    /// The block is above the local chain: it is decompressed, executed and committed.
    pub execute: bool,
    /// The block is above the compression data: its compression changes are committed.
    pub commit_compression: bool,
}

/// Plans the import of a compressed block at `height`, given the height of the local
/// chain and the latest height with compression data, if any.
pub fn plan_da_import(height: u32, on_chain_height: u32, compression_height: Option<u32>) -> (p: ImportPlan)
    ensures
        p.skip == (height <= on_chain_height && (compression_height matches Some(c) && height <= c)),
        p.execute == (!p.skip && height > on_chain_height),
        p.commit_compression == (!p.skip && height > match compression_height {
            Some(c) => c,
            None => 0,
        }),
{
    let less_than_on_chain = height <= on_chain_height;
    if less_than_on_chain {
        if let Some(c) = compression_height {
            if height <= c {
                return ImportPlan { skip: true, execute: false, commit_compression: false };
            }
        }
    }
    let known = match compression_height {
        Some(c) => c,
        None => 0,
    };
    ImportPlan { skip: false, execute: !less_than_on_chain, commit_compression: height > known }
}

/// Points the downloader at the layer-one block of the latest compression data, and
/// at the Fuel block after it.
pub fn downloader_start(config: DownloaderConfig, latest_da_height: u64, latest_height: u32) -> (c: DownloaderConfig)
    requires
        latest_height < u32::MAX,
    ensures
        c == (DownloaderConfig {
            da_start_block: latest_da_height,
            next_fuel_block: (latest_height + 1) as u32,
            ..config
        }),
{
    let mut config = config;
    config.set_da_start_block(latest_da_height);
    config.set_next_fuel_block(latest_height + 1);
    config
}

/// What the syncing task does after one step.
#[derive(Clone, Copy, Debug, PartialEq, Eq)]
pub enum TaskNextAction {
    Continue,
    Stop,
}

/// What one step of the syncing task saw.
#[derive(Clone, Copy, Debug, PartialEq, Eq)]
pub enum TaskEvent {
    /// The service is stopping.
    Stopping,
    /// The stream of blocks from the data-availability layer ended.
    StreamEnded,
    /// Downloading a block failed.
    DownloadFailed,
    /// A downloaded block was imported.
    Imported,
    /// Importing a downloaded block failed.
    ImportFailed,
}

/// The task goes on only after a successful import.
pub fn task_next_action(event: TaskEvent) -> (a: TaskNextAction)
    ensures
        a == (if event == TaskEvent::Imported { TaskNextAction::Continue } else { TaskNextAction::Stop }),
{
    match event {
        TaskEvent::Imported => TaskNextAction::Continue,
        _ => TaskNextAction::Stop,
    }
}

} // verus!
