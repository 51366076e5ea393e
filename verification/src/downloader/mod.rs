//! From layer-one blocks to Fuel blocks: which blob hashes a block commits to, which
//! blobs of the beacon's answer match them, and how completed bundles turn into
//! compressed Fuel blocks that are emitted in height order.
use vstd::prelude::*;

pub mod block_buffer;
pub mod bundle_buffer;
pub mod bundle_laws;
pub mod config;
pub mod download_queue;

pub use config::Config;

use crate::downloader::block_buffer::{at_or_above, BlockBuffer, DaBlock};
use crate::downloader::bundle_buffer::{
    blobs_of, insert_step, layouts_decodable, BundleV1, Entry, IncompleteBundleBuffers, InsertError, InsertKind,
    Inserted,
};
use crate::downloader::bundle_laws::insert_all;
use crate::external::{
    blob_from_bytes, blobs_payload, bundle_blocks, compressed_block_height, hex_bytes, hex_decode, is_hex, sha256, sha256_digest,
    Blob, HexError,
};

verus! {

/// What the logic reads of a layer-one transaction.
pub struct EthTransaction {
    /// The sender.
    pub from: [u8; 20],
    /// The EIP-2718 transaction type, where known.
    pub transaction_type: Option<u8>,
    /// The versioned hashes of the blobs the transaction carries, if any.
    pub blob_versioned_hashes: Option<Vec<Vec<u8>>>,
}

/// The views of a list of byte vectors.
pub open spec fn views(v: Seq<Vec<u8>>) -> Seq<Seq<u8>> {
    v.map_values(|x: Vec<u8>| x@)
}

/// What the logic reads of a layer-one block.
pub struct EthBlock {
    pub transactions: Vec<EthTransaction>,
}

/// The blob hashes that one transaction contributes: those of a blob-carrying
/// (type 3) transaction sent by the target contract.
pub open spec fn tx_blob_hashes(tx: EthTransaction, target: Seq<u8>) -> Seq<Seq<u8>> {
    if tx.from@ == target && tx.transaction_type == Some(3u8) {
        match tx.blob_versioned_hashes {
            Some(h) => views(h@),
            None => Seq::empty(),
        }
    } else {
        Seq::empty()
    }
}

/// The blob hashes of a block's transactions, in order.
pub open spec fn block_blob_hashes(txs: Seq<EthTransaction>, target: Seq<u8>) -> Seq<Seq<u8>>
    decreases txs.len(),
{
    if txs.len() == 0 {
        Seq::empty()
    } else {
        block_blob_hashes(txs.drop_last(), target) + tx_blob_hashes(txs.last(), target)
    }
}

/// How many blob hashes a transaction carries from the target contract: all those of
/// a type-3 transaction it sent, none otherwise.
pub open spec fn tx_hash_len(tx: EthTransaction, target: Seq<u8>) -> nat {
    if tx.from@ == target && tx.transaction_type == Some(3u8) && tx.blob_versioned_hashes is Some {
        tx.blob_versioned_hashes->0@.len()
    } else {
        0
    }
}

/// How many blob hashes the transactions carry from the target contract in all.
pub open spec fn hash_count(txs: Seq<EthTransaction>, target: Seq<u8>) -> nat
    decreases txs.len(),
{
    if txs.len() == 0 {
        0
    } else {
        hash_count(txs.drop_last(), target) + tx_hash_len(txs.last(), target)
    }
}

proof fn lemma_hash_count_prefix(txs: Seq<EthTransaction>, target: Seq<u8>, k: int)
    requires
        0 <= k < txs.len(),
    ensures
        hash_count(txs.take(k), target) + tx_hash_len(txs[k], target) <= hash_count(txs, target),
    decreases txs.len(),
{
    if k == txs.len() - 1 {
        assert(txs.take(k) =~= txs.drop_last());
    } else {
        assert(txs.drop_last().take(k) =~= txs.take(k));
        lemma_hash_count_prefix(txs.drop_last(), target, k);
    }
}

/// Every blob hash of every type-3 transaction that the target contract sent is
/// collected, in transaction order and each transaction's hashes in their order: the
/// `j`-th hash of the `k`-th transaction comes after all hashes of the transactions
/// before it, and nothing else is collected.
pub proof fn lemma_every_hash_collected(txs: Seq<EthTransaction>, target: Seq<u8>)
    ensures
        block_blob_hashes(txs, target).len() == hash_count(txs, target),
        forall|k: int, j: int|
            #![trigger txs[k].blob_versioned_hashes->0@[j]]
            0 <= k < txs.len() && txs[k].from@ == target && txs[k].transaction_type == Some(3u8)
                && txs[k].blob_versioned_hashes is Some && 0 <= j < txs[k].blob_versioned_hashes->0@.len()
                ==> block_blob_hashes(txs, target)[hash_count(txs.take(k), target) + j]
                == txs[k].blob_versioned_hashes->0@[j]@,
    decreases txs.len(),
{
    if txs.len() > 0 {
        let init = txs.drop_last();
        lemma_every_hash_collected(init, target);
        let all = block_blob_hashes(txs, target);
        let t = txs.last();
        assert(all == block_blob_hashes(init, target) + tx_blob_hashes(t, target));
        assert(tx_blob_hashes(t, target).len() == tx_hash_len(t, target));
        assert forall|k: int, j: int|
            0 <= k < txs.len() && txs[k].from@ == target && txs[k].transaction_type == Some(3u8)
                && txs[k].blob_versioned_hashes is Some && 0 <= j < txs[k].blob_versioned_hashes->0@.len()
            implies all[hash_count(txs.take(k), target) + j]
                == #[trigger] txs[k].blob_versioned_hashes->0@[j]@ by {
            if k == txs.len() - 1 {
                assert(txs.take(k) =~= init);
                assert(tx_blob_hashes(t, target)[j] == t.blob_versioned_hashes->0@[j]@);
            } else {
                assert(init.take(k) =~= txs.take(k));
                assert(init[k] == txs[k]);
                lemma_hash_count_prefix(init, target, k);
                assert(init[k].blob_versioned_hashes->0@[j] == txs[k].blob_versioned_hashes->0@[j]);
            }
        }
    }
}

fn same_address(a: &[u8; 20], b: &[u8; 20]) -> (r: bool)
    ensures
        r == (a@ == b@),
{
    let mut i: usize = 0;
    while i < 20
        invariant
            i <= 20,
            a@.len() == 20,
            b@.len() == 20,
            forall|j: int| 0 <= j < i ==> a@[j] == b@[j],
        decreases 20 - i,
    {
        if a[i] != b[i] {
            return false;
        }
        i = i + 1;
    }
    assert(a@ =~= b@);
    true
}

/// A copy of `s` from `start` on.
fn copy_from(s: &Vec<u8>, start: usize) -> (r: Vec<u8>)
    requires
        start <= s.len(),
    ensures
        r@ == s@.subrange(start as int, s@.len() as int),
{
    let mut r: Vec<u8> = Vec::new();
    let mut i = start;
    while i < s.len()
        invariant
            start <= i <= s.len(),
            r@ == s@.subrange(start as int, i as int),
        decreases s.len() - i,
    {
        r.push(s[i]);
        assert(r@ =~= s@.subrange(start as int, i + 1));
        i = i + 1;
    }
    r
}

fn equal_bytes(a: &Vec<u8>, b: &Vec<u8>) -> (r: bool)
    ensures
        r == (a@ == b@),
{
    if a.len() != b.len() {
        return false;
    }
    let mut i: usize = 0;
    while i < a.len()
        invariant
            i <= a.len() == b.len(),
            forall|j: int| 0 <= j < i ==> a@[j] == b@[j],
        decreases a.len() - i,
    {
        if a[i] != b[i] {
            return false;
        }
        i = i + 1;
    }
    assert(a@ =~= b@);
    true
}

/// Returns blob hashes of the target contract from the block.
pub fn get_block_tx_blobs(block: &EthBlock, target_contract: &[u8; 20]) -> (hashes: Vec<Vec<u8>>)
    ensures
        views(hashes@) == block_blob_hashes(block.transactions@, target_contract@),
        hashes@.len() == hash_count(block.transactions@, target_contract@),
{
    proof {
        lemma_every_hash_collected(block.transactions@, target_contract@);
    }
    let mut hashes: Vec<Vec<u8>> = Vec::new();
    let mut i: usize = 0;
    while i < block.transactions.len()
        invariant
            i <= block.transactions.len(),
            views(hashes@) == block_blob_hashes(
                block.transactions@.take(i as int),
                target_contract@,
            ),
        decreases block.transactions.len() - i,
    {
        let ghost before = views(hashes@);
        let tx = &block.transactions[i];
        let ghost txs = block.transactions@.take(i + 1);
        assert(txs.drop_last() =~= block.transactions@.take(i as int));
        assert(txs.last() == *tx);
        if same_address(&tx.from, target_contract) && tx.transaction_type == Some(3u8) {
            match &tx.blob_versioned_hashes {
                Some(bvh) => {
                    let mut j: usize = 0;
                    while j < bvh.len()
                        invariant
                            j <= bvh.len(),
                            views(hashes@) == before + views(bvh@).take(j as int),
                        decreases bvh.len() - j,
                    {
                        let h = copy_from(&bvh[j], 0);
                        assert(h@ =~= bvh[j as int]@);
                        let ghost prev = hashes@;
                        hashes.push(h);
                        assert(hashes@ == prev.push(h));
                        assert(views(prev) == before + views(bvh@).take(j as int));
                        let ghost want = before + views(bvh@).take(j + 1);
                        assert(views(prev).len() == prev.len());
                        assert forall|k: int| 0 <= k < hashes@.len() implies views(hashes@)[k] == want[k] by {
                            if k < prev.len() {
                                assert(hashes@[k] == prev[k]);
                                assert(views(prev)[k] == prev[k]@);
                            } else {
                                assert(hashes@[k] == h);
                            }
                        }
                        assert(views(hashes@) =~= want);
                        j = j + 1;
                    }
                    assert(views(bvh@).take(bvh.len() as int) =~= views(bvh@));
                },
                None => {
                    assert(views(hashes@) =~= before + Seq::<Seq<u8>>::empty());
                },
            }
        } else {
            assert(views(hashes@) =~= before + Seq::<Seq<u8>>::empty());
        }
        i = i + 1;
    }
    assert(block.transactions@.take(block.transactions@.len() as int) =~= block.transactions@);
    hashes
}

/// `s` with every leading "0x" removed.
pub open spec fn trim_hex_prefix(s: Seq<u8>) -> Seq<u8>
    decreases s.len(),
{
    if s.len() >= 2 && s[0] == 48u8 && s[1] == 120u8 {
        trim_hex_prefix(s.subrange(2, s.len() as int))
    } else {
        s
    }
}

/// A copy of `s` with every leading "0x" removed.
pub fn strip_hex_prefix(s: &Vec<u8>) -> (r: Vec<u8>)
    ensures
        r@ == trim_hex_prefix(s@),
{
    let mut start: usize = 0;
    assert(s@.subrange(0, s@.len() as int) =~= s@);
    while s.len() - start >= 2 && s[start] == 48u8 && s[start + 1] == 120u8
        invariant
            start <= s.len(),
            trim_hex_prefix(s@.subrange(start as int, s@.len() as int)) == trim_hex_prefix(s@),
        decreases s.len() - start,
    {
        let ghost t = s@.subrange(start as int, s@.len() as int);
        assert(t.subrange(2, t.len() as int) =~= s@.subrange(start + 2, s@.len() as int));
        start = start + 2;
    }
    copy_from(s, start)
}

/// One entry of the beacon's answer: a blob and its KZG commitment, each as the
/// bytes of a hexadecimal string that may start with "0x".
pub struct BlobData {
    pub blob: Vec<u8>,
    pub kzg_commitment: Vec<u8>,
}

/// The beacon's answer to a request for the blob sidecars of a block.
pub struct BlobSidecarResponse {
    pub data: Vec<BlobData>,
}

/// The versioned hash of a blob with this KZG commitment: the version byte 1
/// followed by all but the first byte of the commitment's SHA-256 digest.
pub open spec fn versioned_hash(commitment: Seq<u8>) -> Seq<u8> {
    seq![1u8] + sha256_digest(commitment).subrange(1, 32)
}

/// Why the beacon's answer could not be turned into blobs.
#[derive(Clone, Copy, Debug, PartialEq, Eq)]
pub enum BeaconFailure {
    CommitmentHex,
    BlobHex,
    BlobLength,
}

/// Why the beacon's answer could not be turned into blobs, with the details.
pub enum BeaconError {
    /// A KZG commitment is not hexadecimal.
    CommitmentHex(HexError),
    /// A matching blob is not hexadecimal.
    BlobHex(HexError),
    /// A matching blob does not have the size of a blob.
    InvalidBlobBytes,
}

pub open spec fn failure_of(e: BeaconError) -> BeaconFailure {
    match e {
        BeaconError::CommitmentHex(_) => BeaconFailure::CommitmentHex,
        BeaconError::BlobHex(_) => BeaconFailure::BlobHex,
        BeaconError::InvalidBlobBytes => BeaconFailure::BlobLength,
    }
}

/// What one entry of the answer contributes: its blob if its commitment's
/// versioned hash is one of `hashes`, nothing otherwise, or why it fails.
pub open spec fn sidecar_blob(item: BlobData, hashes: Seq<Seq<u8>>) -> Result<Option<Seq<u8>>, BeaconFailure> {
    let kzg = trim_hex_prefix(item.kzg_commitment@);
    if !is_hex(kzg) {
        Err(BeaconFailure::CommitmentHex)
    } else if !hashes.contains(versioned_hash(hex_bytes(kzg))) {
        Ok(None)
    } else {
        let b = trim_hex_prefix(item.blob@);
        if !is_hex(b) {
            Err(BeaconFailure::BlobHex)
        } else if hex_bytes(b).len() != 131072 {
            Err(BeaconFailure::BlobLength)
        } else {
            Ok(Some(hex_bytes(b)))
        }
    }
}

/// The matching blobs of the answer, in order, or the first failure.
pub open spec fn sidecar_blobs(items: Seq<BlobData>, hashes: Seq<Seq<u8>>) -> Result<Seq<Seq<u8>>, BeaconFailure>
    decreases items.len(),
{
    if items.len() == 0 {
        Ok(Seq::empty())
    } else {
        match sidecar_blobs(items.drop_last(), hashes) {
            Err(f) => Err(f),
            Ok(prev) => match sidecar_blob(items.last(), hashes) {
                Err(f) => Err(f),
                Ok(None) => Ok(prev),
                Ok(Some(b)) => Ok(prev.push(b)),
            },
        }
    }
}

/// Whether the commitment of a sidecar is hexadecimal and its versioned hash is one
/// of `hashes`.
pub open spec fn sidecar_matches(item: BlobData, hashes: Seq<Seq<u8>>) -> bool {
    let kzg = trim_hex_prefix(item.kzg_commitment@);
    is_hex(kzg) && hashes.contains(versioned_hash(hex_bytes(kzg)))
}

/// How many of the sidecars match `hashes`.
pub open spec fn match_count(items: Seq<BlobData>, hashes: Seq<Seq<u8>>) -> nat
    decreases items.len(),
{
    if items.len() == 0 {
        0
    } else {
        match_count(items.drop_last(), hashes) + if sidecar_matches(items.last(), hashes) {
            1nat
        } else {
            0nat
        }
    }
}

proof fn lemma_match_count_prefix(items: Seq<BlobData>, hashes: Seq<Seq<u8>>, k: int)
    requires
        0 <= k < items.len(),
        sidecar_matches(items[k], hashes),
    ensures
        match_count(items.take(k), hashes) < match_count(items, hashes),
    decreases items.len(),
{
    if k == items.len() - 1 {
        assert(items.take(k) =~= items.drop_last());
    } else {
        assert(items.drop_last().take(k) =~= items.take(k));
        lemma_match_count_prefix(items.drop_last(), hashes, k);
    }
}

/// When the beacon's answer goes through, every sidecar whose commitment's versioned
/// hash is one of `hashes` gives its blob, in sidecar order, and no other blob is
/// kept: there are as many blobs as matching sidecars, and the blob of the `i`-th
/// sidecar comes after those of the matching sidecars before it.
pub proof fn lemma_every_matching_blob_kept(items: Seq<BlobData>, hashes: Seq<Seq<u8>>)
    ensures
        sidecar_blobs(items, hashes) matches Ok(v) ==> {
            &&& v.len() == match_count(items, hashes)
            &&& forall|i: int|
                0 <= i < items.len() && #[trigger] sidecar_matches(items[i], hashes) ==> v[match_count(
                    items.take(i),
                    hashes,
                ) as int] == hex_bytes(trim_hex_prefix(items[i].blob@))
        },
    decreases items.len(),
{
    if items.len() > 0 {
        let init = items.drop_last();
        lemma_every_matching_blob_kept(init, hashes);
        if let Ok(v) = sidecar_blobs(items, hashes) {
            let prev = sidecar_blobs(init, hashes)->Ok_0;
            let last = items.last();
            assert forall|i: int| 0 <= i < items.len() && #[trigger] sidecar_matches(items[i], hashes) implies v[match_count(
                items.take(i),
                hashes,
            ) as int] == hex_bytes(trim_hex_prefix(items[i].blob@)) by {
                if i == items.len() - 1 {
                    assert(items.take(i) =~= init);
                } else {
                    assert(init.take(i) =~= items.take(i));
                    assert(init[i] == items[i]);
                    lemma_match_count_prefix(init, hashes, i);
                }
            }
        }
    }
}

proof fn lemma_sidecar_failure_persists(items: Seq<BlobData>, hashes: Seq<Seq<u8>>, k: int)
    requires
        0 <= k <= items.len(),
        sidecar_blobs(items.take(k), hashes) is Err,
    ensures
        sidecar_blobs(items, hashes) == sidecar_blobs(items.take(k), hashes),
    decreases items.len() - k,
{
    if k == items.len() {
        assert(items.take(k) =~= items);
    } else {
        assert(items.drop_last().take(k) =~= items.take(k));
        lemma_sidecar_failure_persists(items.drop_last(), hashes, k);
    }
}

fn contains_hash(hashes: &Vec<Vec<u8>>, h: &Vec<u8>) -> (r: bool)
    ensures
        r == views(hashes@).contains(h@),
{
    let mut i: usize = 0;
    while i < hashes.len()
        invariant
            i <= hashes.len(),
            forall|j: int| 0 <= j < i ==> views(hashes@)[j] != h@,
        decreases hashes.len() - i,
    {
        if equal_bytes(&hashes[i], h) {
            assert(views(hashes@)[i as int] == h@);
            return true;
        }
        i = i + 1;
    }
    false
}

/// The versioned hash of a blob with this KZG commitment.
fn versioned_hash_of(commitment: &Vec<u8>) -> (r: Vec<u8>)
    ensures
        r@ == versioned_hash(commitment@),
{
    let digest = sha256(commitment.as_slice());
    let mut r: Vec<u8> = Vec::new();
    r.push(1u8);
    let mut i: usize = 1;
    while i < 32
        invariant
            1 <= i <= 32,
            digest@.len() == 32,
            r@ == seq![1u8] + digest@.subrange(1, i as int),
        decreases 32 - i,
    {
        r.push(digest[i]);
        assert(r@ =~= seq![1u8] + digest@.subrange(1, i + 1));
        i = i + 1;
    }
    r
}

/// Returns blobs from the beacon response, given the hashes of the blobs we are
/// interested in.
pub fn get_blobs_from_beacon_response(body: BlobSidecarResponse, hashes: Vec<Vec<u8>>) -> (r: Result<
    Vec<Blob>,
    BeaconError,
>)
    ensures
        match r {
            Ok(v) => {
                &&& sidecar_blobs(body.data@, views(hashes@)) == Ok::<Seq<Seq<u8>>, BeaconFailure>(
                    v@.map_values(|b: Blob| b@),
                )
                &&& v@.len() == match_count(body.data@, views(hashes@))
            },
            Err(e) => sidecar_blobs(body.data@, views(hashes@)) == Err::<Seq<Seq<u8>>, BeaconFailure>(
                failure_of(e),
            ),
        },
{
    let ghost items = body.data@;
    let ghost hs = views(hashes@);
    let mut result: Vec<Blob> = Vec::new();
    let mut i: usize = 0;
    assert(items.take(0) =~= Seq::<BlobData>::empty());
    assert(result@.map_values(|b: Blob| b@) =~= Seq::<Seq<u8>>::empty());
    while i < body.data.len()
        invariant
            i <= body.data.len(),
            items == body.data@,
            hs == views(hashes@),
            sidecar_blobs(items.take(i as int), hs) == Ok::<Seq<Seq<u8>>, BeaconFailure>(
                result@.map_values(|b: Blob| b@),
            ),
        decreases body.data.len() - i,
    {
        let item = &body.data[i];
        let ghost prefix = items.take(i + 1);
        assert(prefix.drop_last() =~= items.take(i as int));
        assert(prefix.last() == *item);
        let kzg_hex = strip_hex_prefix(&item.kzg_commitment);
        let kzg = match hex_decode(kzg_hex.as_slice()) {
            Ok(k) => k,
            Err(e) => {
                proof {
                    lemma_sidecar_failure_persists(items, hs, i + 1);
                }
                return Err(BeaconError::CommitmentHex(e));
            },
        };
        let vh = versioned_hash_of(&kzg);
        if contains_hash(&hashes, &vh) {
            let blob_hex = strip_hex_prefix(&item.blob);
            let raw = match hex_decode(blob_hex.as_slice()) {
                Ok(b) => b,
                Err(e) => {
                    proof {
                        lemma_sidecar_failure_persists(items, hs, i + 1);
                    }
                    return Err(BeaconError::BlobHex(e));
                },
            };
            let ghost raw_view = raw@;
            let blob = match blob_from_bytes(raw) {
                Some(b) => b,
                None => {
                    proof {
                        lemma_sidecar_failure_persists(items, hs, i + 1);
                    }
                    return Err(BeaconError::InvalidBlobBytes);
                },
            };
            let ghost before = result@.map_values(|b: Blob| b@);
            result.push(blob);
            assert(result@.map_values(|b: Blob| b@) =~= before.push(raw_view));
        }
        i = i + 1;
    }
    assert(items.take(items.len() as int) =~= items);
    proof {
        lemma_every_matching_blob_kept(items, hs);
    }
    Ok(result)
}

/// Why the downloader stopped.
pub enum DownloadError {
    /// The beacon's answer could not be turned into blobs.
    Beacon(BeaconError),
    /// A blob could not be added to its bundle, or a complete bundle not decoded.
    Bundle(InsertError),
    /// A block of a complete bundle could not be decoded.
    BlockDecode(postcard::Error),
    /// The block at the highest Fuel height was emitted; no height comes after it.
    OutOfFuelBlockHeights,
}

/// Which of the ways the downloader can stop it stopped by.
#[derive(Clone, Copy, Debug, PartialEq, Eq)]
pub enum FailureKind {
    Beacon,
    HeaderUnreadable,
    DuplicateBlob,
    UndecodableLayout,
    BlobDecode,
    BundleDecode,
    BlockDecode,
    OutOfFuelBlockHeights,
}

/// Which way the downloader stopped by, for an error it returned.
pub open spec fn failure_kind(e: DownloadError) -> FailureKind {
    match e {
        DownloadError::Beacon(_) => FailureKind::Beacon,
        DownloadError::Bundle(InsertError::Header(_)) => FailureKind::HeaderUnreadable,
        DownloadError::Bundle(InsertError::DuplicateBlob { .. }) => FailureKind::DuplicateBlob,
        DownloadError::Bundle(InsertError::UndecodableLayout { .. }) => FailureKind::UndecodableLayout,
        DownloadError::Bundle(InsertError::BlobDecode(_)) => FailureKind::BlobDecode,
        DownloadError::Bundle(InsertError::BundleDecode(_)) => FailureKind::BundleDecode,
        DownloadError::BlockDecode(_) => FailureKind::BlockDecode,
        DownloadError::OutOfFuelBlockHeights => FailureKind::OutOfFuelBlockHeights,
    }
}

/// `None` for a call that went through, else the way it stopped by.
pub open spec fn status_of(r: Result<(), DownloadError>) -> Option<FailureKind> {
    match r {
        Ok(_) => None,
        Err(e) => Some(failure_kind(e)),
    }
}

/// How many blocks, from height `next` on, are held at consecutive heights.
pub open spec fn ready_run(keys: Set<u32>, next: u32) -> nat
    decreases u32::MAX - next,
{
    if keys.contains(next) {
        if next == u32::MAX {
            1
        } else {
            1 + ready_run(keys, (next + 1) as u32)
        }
    } else {
        0
    }
}

/// Emitting from `before` at height `next`: the blocks below `next` are dropped, then
/// the blocks at `next`, `next + 1`, ... are emitted while there is one; `after` and
/// `next_after` are what remains and the next height to emit. It fails (`ok` false)
/// only when the block at the highest height was emitted.
pub open spec fn drained(
    before: Map<u32, DaBlock>,
    next: u32,
    emitted: Seq<DaBlock>,
    after: Map<u32, DaBlock>,
    next_after: u32,
    ok: bool,
) -> bool {
    let p = at_or_above(before, next);
    let c = ready_run(p.dom(), next);
    &&& emitted.len() == c
    &&& forall|i: int| 0 <= i < c ==> #[trigger] emitted[i] == p[(next + i) as u32]
    &&& forall|i: int| 0 <= i < c ==> p.contains_key(#[trigger] (next + i) as u32)
    &&& ok <==> !(c > 0 && next + c - 1 == u32::MAX)
    &&& ok ==> next_after == next + c && after == at_or_above(p, next_after)
    &&& ok ==> !after.contains_key(next_after)
    &&& !ok ==> next_after == u32::MAX && after == Map::<u32, DaBlock>::empty()
}

/// The heights of the decodable blocks among `blocks`.
pub open spec fn decoded_heights(blocks: Seq<Seq<u8>>) -> Set<u32> {
    Set::new(|h: u32| exists|k: int| 0 <= k < blocks.len() && compressed_block_height(#[trigger] blocks[k]) == Some(h))
}

/// Every one of `blocks` decodes.
pub open spec fn all_decode(blocks: Seq<Seq<u8>>) -> bool {
    forall|k: int| 0 <= k < blocks.len() ==> (#[trigger] compressed_block_height(blocks[k])) is Some
}

/// `pushed` is `before` with a block added at each of `heights`.
pub open spec fn pushed_at(before: Map<u32, DaBlock>, heights: Set<u32>, pushed: Map<u32, DaBlock>) -> bool {
    &&& pushed.dom() == before.dom() + heights
    &&& forall|h: u32| #[trigger] before.contains_key(h) && !heights.contains(h) ==> pushed[h] == before[h]
    &&& forall|h: u32| #[trigger] pushed.contains_key(h) ==> pushed[h].spec_height() == h
}

/// The last of `blocks` that decodes at height `h`.
pub open spec fn last_at(blocks: Seq<Seq<u8>>, h: u32) -> Seq<u8>
    decreases blocks.len(),
{
    if blocks.len() == 0 {
        Seq::empty()
    } else if compressed_block_height(blocks.last()) == Some(h) {
        blocks.last()
    } else {
        last_at(blocks.drop_last(), h)
    }
}

/// At each height where some of `blocks` decodes, `pushed` holds the block decoded
/// from the last of them: a later block at a height replaces an earlier one.
pub open spec fn last_wins(blocks: Seq<Seq<u8>>, pushed: Map<u32, DaBlock>) -> bool {
    forall|h: u32| #[trigger] decoded_heights(blocks).contains(h) ==> pushed[h].spec_bytes() == last_at(blocks, h)
}

/// The blocks emitted by a drain carry the heights `next`, `next + 1`, ...
pub proof fn lemma_drained_heights(
    before: Map<u32, DaBlock>,
    next: u32,
    emitted: Seq<DaBlock>,
    after: Map<u32, DaBlock>,
    next_after: u32,
    ok: bool,
)
    requires
        drained(before, next, emitted, after, next_after, ok),
        forall|h: u32| #[trigger] before.contains_key(h) ==> before[h].spec_height() == h,
    ensures
        forall|i: int| 0 <= i < emitted.len() ==> #[trigger] emitted[i].spec_height() == next + i,
{
    let p = at_or_above(before, next);
    assert forall|i: int| 0 <= i < emitted.len() implies #[trigger] emitted[i].spec_height() == next + i by {
        assert(p.contains_key((next + i) as u32));
        assert(before.contains_key((next + i) as u32));
    }
}

/// Absorbing the blocks `bs` of a complete bundle into `blocks`, with `next` the next
/// height to emit: where every block decodes, they join the buffered blocks at their
/// heights, a later one replacing an earlier one at the same height, and what is
/// ready is drained; otherwise the blocks before the first one that does not decode
/// join the buffer in the same way, nothing is emitted and it fails.
pub open spec fn absorbed(
    blocks: Map<u32, DaBlock>,
    next: u32,
    bs: Seq<Seq<u8>>,
    blocks2: Map<u32, DaBlock>,
    next2: u32,
    emitted: Seq<DaBlock>,
    ok: bool,
) -> bool {
    if all_decode(bs) {
        exists|pushed: Map<u32, DaBlock>|
            #[trigger] pushed_at(blocks, decoded_heights(bs), pushed) && last_wins(bs, pushed) && drained(
                pushed,
                next,
                emitted,
                blocks2,
                next2,
                ok,
            )
    } else {
        &&& !ok
        &&& emitted.len() == 0
        &&& next2 == next
        &&& exists|k: int|
            0 <= k < bs.len() && all_decode(bs.take(k)) && compressed_block_height(#[trigger] bs[k]) is None
                && pushed_at(blocks, decoded_heights(bs.take(k)), blocks2) && last_wins(bs.take(k), blocks2)
    }
}

/// One blob handed to the downloader, from bundle buffers `bundles`, buffered blocks
/// `blocks` and next height `next` to `bundles2`, `blocks2` and `next2`, emitting
/// `emitted`: the blob goes into its bundle; a bundle it completes is decoded and its
/// blocks absorbed. `status` is `None` where the blob went through, else the way it
/// stopped: its header cannot be read, its index is already buffered, the completed
/// bundle's blobs cannot be taken apart or decoded, its payload cannot be decoded,
/// one of its blocks does not decode, or the block at the highest height was emitted.
pub open spec fn blob_step(
    bundles: Map<u32, Seq<Entry>>,
    blocks: Map<u32, DaBlock>,
    next: u32,
    blob: Seq<u8>,
    bundles2: Map<u32, Seq<Entry>>,
    blocks2: Map<u32, DaBlock>,
    next2: u32,
    emitted: Seq<DaBlock>,
    status: Option<FailureKind>,
) -> bool {
    let s = insert_step(bundles, blob);
    let unchanged = emitted.len() == 0 && blocks2 == blocks && next2 == next;
    &&& bundles2 == s.0
    &&& match s.1 {
        InsertKind::Incomplete => status is None && unchanged,
        InsertKind::HeaderUnreadable => status == Some(FailureKind::HeaderUnreadable) && unchanged,
        InsertKind::Duplicate => status == Some(FailureKind::DuplicateBlob) && unchanged,
        InsertKind::Completed => if !layouts_decodable(s.2) {
            status == Some(FailureKind::UndecodableLayout) && unchanged
        } else {
            match blobs_payload(blobs_of(s.2)) {
                None => status == Some(FailureKind::BlobDecode) && unchanged,
                Some(payload) => match bundle_blocks(payload) {
                    None => status == Some(FailureKind::BundleDecode) && unchanged,
                    Some(bs) => {
                        &&& absorbed(blocks, next, bs, blocks2, next2, emitted, status is None)
                        &&& status is Some ==> status == Some(
                            if all_decode(bs) {
                                FailureKind::OutOfFuelBlockHeights
                            } else {
                                FailureKind::BlockDecode
                            },
                        )
                    },
                },
            }
        },
    }
}

/// Where handing blobs to the downloader can leave it: its bundle buffers, its
/// buffered blocks, its next height, the blocks emitted on the way, and `None` where
/// every blob went through, else the way it stopped.
pub type Progress = (Map<u32, Seq<Entry>>, Map<u32, DaBlock>, u32, Seq<DaBlock>, Option<FailureKind>);

/// The progress that the blobs `blobs`, handed over one after the other from bundle
/// buffers `bundles`, buffered blocks `blocks` and next height `next`, can reach;
/// processing stops at the first blob that fails.
pub open spec fn outcomes(
    bundles: Map<u32, Seq<Entry>>,
    blocks: Map<u32, DaBlock>,
    next: u32,
    blobs: Seq<Seq<u8>>,
) -> Set<Progress>
    decreases blobs.len(),
{
    if blobs.len() == 0 {
        set![(bundles, blocks, next, Seq::<DaBlock>::empty(), None::<FailureKind>)]
    } else {
        let before = outcomes(bundles, blocks, next, blobs.drop_last());
        Set::new(
            |o: Progress|
                (o.4 is Some && before.contains(o)) || exists|p: Progress|
                    #[trigger] before.contains(p) && p.4 is None && p.3.len() <= o.3.len() && o.3.subrange(0, p.3.len() as int)
                        == p.3 && blob_step(
                        p.0,
                        p.1,
                        p.2,
                        blobs.last(),
                        o.0,
                        o.1,
                        o.2,
                        o.3.subrange(p.3.len() as int, o.3.len() as int),
                        o.4,
                    ),
        )
    }
}

/// One more blob after a run of blobs that all went through.
proof fn lemma_one_more_blob(
    bundles: Map<u32, Seq<Entry>>,
    blocks: Map<u32, DaBlock>,
    next: u32,
    blobs: Seq<Seq<u8>>,
    p: Progress,
    bundles2: Map<u32, Seq<Entry>>,
    blocks2: Map<u32, DaBlock>,
    next2: u32,
    e2: Seq<DaBlock>,
    status: Option<FailureKind>,
)
    requires
        blobs.len() > 0,
        outcomes(bundles, blocks, next, blobs.drop_last()).contains(p),
        p.4 is None,
        blob_step(p.0, p.1, p.2, blobs.last(), bundles2, blocks2, next2, e2, status),
    ensures
        outcomes(bundles, blocks, next, blobs).contains((bundles2, blocks2, next2, p.3 + e2, status)),
{
    let o: Progress = (bundles2, blocks2, next2, p.3 + e2, status);
    assert(o.3.subrange(0, p.3.len() as int) =~= p.3);
    assert(o.3.subrange(p.3.len() as int, o.3.len() as int) =~= e2);
}

/// A failure on a prefix of the blobs is where processing stops: the blobs after it
/// are never handed over.
proof fn lemma_failure_stands(
    bundles: Map<u32, Seq<Entry>>,
    blocks: Map<u32, DaBlock>,
    next: u32,
    blobs: Seq<Seq<u8>>,
    k: int,
    o: Progress,
)
    requires
        0 <= k <= blobs.len(),
        outcomes(bundles, blocks, next, blobs.take(k)).contains(o),
        o.4 is Some,
    ensures
        outcomes(bundles, blocks, next, blobs).contains(o),
    decreases blobs.len() - k,
{
    if k == blobs.len() {
        assert(blobs.take(k) =~= blobs);
    } else {
        assert(blobs.drop_last().take(k) =~= blobs.take(k));
        lemma_failure_stands(bundles, blocks, next, blobs.drop_last(), k, o);
    }
}

/// Emitting a run of blocks at the heights from `next` on, after the heights from
/// `start` up to `next`, keeps the record of emitted heights gap-free and in order.
proof fn lemma_emission_extends(start: u32, before: Seq<u32>, next: u32, run: Seq<DaBlock>)
    requires
        start + before.len() == next,
        forall|i: int| 0 <= i < before.len() ==> #[trigger] before[i] == start + i,
        forall|i: int| 0 <= i < run.len() ==> #[trigger] run[i].spec_height() == next + i,
    ensures
        start + (before + heights(run)).len() == next + run.len(),
        forall|i: int| 0 <= i < (before + heights(run)).len() ==> #[trigger] (before + heights(run))[i] == start + i,
{
    let all = before + heights(run);
    assert forall|i: int| 0 <= i < all.len() implies #[trigger] all[i] == start + i by {
        if i >= before.len() {
            assert(all[i] == heights(run)[i - before.len()]);
            assert(run[i - before.len()].spec_height() == next + (i - before.len()));
        }
    }
}

/// The blocks taken from `p` at the heights from `next` on carry those heights.
proof fn lemma_drain_run_heights(p: Map<u32, DaBlock>, next: u32, run: Seq<DaBlock>)
    requires
        forall|h: u32| #[trigger] p.contains_key(h) ==> p[h].spec_height() == h,
        forall|i: int| 0 <= i < run.len() ==> #[trigger] run[i] == p[(next + i) as u32],
        forall|i: int| 0 <= i < run.len() ==> p.contains_key(#[trigger] (next + i) as u32),
        next + run.len() <= u32::MAX + 1,
    ensures
        forall|i: int| 0 <= i < run.len() ==> #[trigger] run[i].spec_height() == next + i,
{
    assert forall|i: int| 0 <= i < run.len() implies #[trigger] run[i].spec_height() == next + i by {
        assert(p.contains_key((next + i) as u32));
    }
}

/// The state of the downloader between layer-one blocks.
pub struct Downloader {
    /// Contract to monitor for new blobs.
    target_contract: [u8; 20],
    /// Next Fuel block to emit.
    next_fuel_block: u32,
    /// Incomplete bundle buffers.
    bundle_buffers: IncompleteBundleBuffers,
    /// Outgoing block buffer.
    block_buffer: BlockBuffer,
    /// The height the downloader started emitting from.
    start: Ghost<u32>,
    /// The heights of the blocks emitted so far, in the order they went out.
    emitted: Ghost<Seq<u32>>,
}

/// The heights of a run of blocks.
pub open spec fn heights(bs: Seq<DaBlock>) -> Seq<u32> {
    bs.map_values(|b: DaBlock| b.spec_height())
}

impl Downloader {
    pub closed spec fn spec_target_contract(&self) -> Seq<u8> {
        self.target_contract@
    }

    pub closed spec fn spec_next_fuel_block(&self) -> u32 {
        self.next_fuel_block
    }

    pub closed spec fn spec_bundles(&self) -> Map<u32, Seq<Entry>> {
        self.bundle_buffers@
    }

    pub closed spec fn spec_blocks(&self) -> Map<u32, DaBlock> {
        self.block_buffer@
    }

    pub closed spec fn spec_start(&self) -> u32 {
        self.start@
    }

    pub closed spec fn spec_emitted(&self) -> Seq<u32> {
        self.emitted@
    }

    pub closed spec fn wf(&self) -> bool {
        self.bundle_buffers.wf() && self.block_buffer.wf()
    }

    /// The downloader has emitted the blocks at the heights from its start up to the
    /// next height, each once and in order; it holds from the start, and on for as
    /// long as no call fails.
    pub open spec fn in_stream(&self) -> bool {
        &&& self.spec_start() + self.spec_emitted().len() == self.spec_next_fuel_block()
        &&& forall|i: int| 0 <= i < self.spec_emitted().len() ==> #[trigger] self.spec_emitted()[i] == self.spec_start() + i
    }

    /// A downloader that watches the configured contract and emits from the configured Fuel block.
    pub fn new(config: Config) -> (d: Self)
        ensures
            d.wf(),
            d.spec_target_contract() == config.blob_contract@,
            d.spec_next_fuel_block() == config.next_fuel_block,
            d.spec_bundles() == Map::<u32, Seq<Entry>>::empty(),
            d.spec_blocks() == Map::<u32, DaBlock>::empty(),
            d.spec_start() == config.next_fuel_block,
            d.spec_emitted() == Seq::<u32>::empty(),
            d.in_stream(),
    {
        Downloader {
            target_contract: config.blob_contract,
            next_fuel_block: config.next_fuel_block,
            bundle_buffers: IncompleteBundleBuffers::new(),
            block_buffer: BlockBuffer::new(),
            start: Ghost(config.next_fuel_block),
            emitted: Ghost(Seq::empty()),
        }
    }

    /// The next Fuel block to emit.
    pub fn next_fuel_block(&self) -> (h: u32)
        ensures
            h == self.spec_next_fuel_block(),
    {
        self.next_fuel_block
    }

    /// Drops the buffered blocks below the next height, then emits the buffered blocks
    /// at consecutive heights from it.
    pub fn drain_ready(&mut self) -> (r: (Vec<DaBlock>, Result<(), DownloadError>))
        requires
            old(self).wf(),
        ensures
            final(self).wf(),
            final(self).spec_target_contract() == old(self).spec_target_contract(),
            final(self).spec_bundles() == old(self).spec_bundles(),
            drained(
                old(self).spec_blocks(),
                old(self).spec_next_fuel_block(),
                r.0@,
                final(self).spec_blocks(),
                final(self).spec_next_fuel_block(),
                r.1 is Ok,
            ),
            r.1 matches Err(e) ==> e is OutOfFuelBlockHeights,
            forall|i: int| 0 <= i < r.0@.len() ==> #[trigger] r.0@[i].spec_height() == old(self).spec_next_fuel_block() + i,
            final(self).spec_start() == old(self).spec_start(),
            final(self).spec_emitted() == old(self).spec_emitted() + heights(r.0@),
            old(self).in_stream() ==> forall|i: int|
                0 <= i < final(self).spec_emitted().len() ==> #[trigger] final(self).spec_emitted()[i]
                    == final(self).spec_start() + i,
            old(self).in_stream() && r.1 is Ok ==> final(self).in_stream(),
    {
        self.block_buffer.prune_below(self.next_fuel_block);
        let ghost p = self.block_buffer@;
        let ghost n0 = self.next_fuel_block;
        let mut out: Vec<DaBlock> = Vec::new();
        loop
            invariant
                self.wf(),
                self.spec_target_contract() == old(self).spec_target_contract(),
                self.spec_bundles() == old(self).spec_bundles(),
                self.spec_start() == old(self).spec_start(),
                self.spec_emitted() == old(self).spec_emitted(),
                p == at_or_above(old(self).spec_blocks(), n0),
                forall|h: u32| #[trigger] p.contains_key(h) ==> p[h].spec_height() == h,
                n0 == old(self).spec_next_fuel_block(),
                n0 <= self.next_fuel_block,
                self.next_fuel_block - n0 == out@.len(),
                forall|i: int| 0 <= i < out@.len() ==> #[trigger] out@[i] == p[(n0 + i) as u32],
                forall|i: int| 0 <= i < out@.len() ==> p.contains_key(#[trigger] (n0 + i) as u32),
                self.block_buffer@ == at_or_above(p, self.next_fuel_block),
                ready_run(p.dom(), n0) == out@.len() + ready_run(p.dom(), self.next_fuel_block),
            decreases u32::MAX - self.next_fuel_block,
        {
            let next = self.next_fuel_block;
            match self.block_buffer.pop_height(next) {
                None => {
                    assert(!p.contains_key(next)) by {
                        if p.contains_key(next) {
                            assert(self.block_buffer@.contains_key(next));
                            assert forall|j: u32| #[trigger] self.block_buffer@.contains_key(j) implies next <= j by {
                            }
                        }
                    }
                    assert(ready_run(p.dom(), next) == 0);
                    proof {
                        lemma_drain_run_heights(p, n0, out@);
                        if old(self).in_stream() {
                            lemma_emission_extends(self.start@, self.emitted@, n0, out@);
                        }
                    }
                    self.emitted = Ghost(self.emitted@ + heights(out@));
                    return (out, Ok(()));
                },
                Some(b) => {
                    assert(p.contains_key(next));
                    let ghost before = out@;
                    out.push(b);
                    assert(out@ == before.push(b));
                    match next.checked_add(1) {
                        None => {
                            assert(ready_run(p.dom(), next) == 1);
                            assert(self.block_buffer@ =~= Map::<u32, DaBlock>::empty());
                            proof {
                                lemma_drain_run_heights(p, n0, out@);
                                if old(self).in_stream() {
                                    lemma_emission_extends(self.start@, self.emitted@, n0, out@);
                                }
                            }
                            self.emitted = Ghost(self.emitted@ + heights(out@));
                            return (out, Err(DownloadError::OutOfFuelBlockHeights));
                        },
                        Some(n) => {
                            assert(ready_run(p.dom(), next) == 1 + ready_run(p.dom(), n));
                            assert(self.block_buffer@ =~= at_or_above(p, n));
                            self.next_fuel_block = n;
                        },
                    }
                },
            }
        }
    }

    /// Decodes the blocks of a complete bundle into the block buffer, then emits
    /// what is ready.
    pub fn absorb_bundle(&mut self, bundle: BundleV1) -> (r: (Vec<DaBlock>, Result<(), DownloadError>))
        requires
            old(self).wf(),
        ensures
            final(self).wf(),
            final(self).spec_target_contract() == old(self).spec_target_contract(),
            final(self).spec_bundles() == old(self).spec_bundles(),
            absorbed(
                old(self).spec_blocks(),
                old(self).spec_next_fuel_block(),
                views(bundle.blocks@),
                final(self).spec_blocks(),
                final(self).spec_next_fuel_block(),
                r.0@,
                r.1 is Ok,
            ),
            !all_decode(views(bundle.blocks@)) ==> r.1 matches Err(DownloadError::BlockDecode(_)),
            all_decode(views(bundle.blocks@)) ==> (r.1 matches Err(e) ==> e is OutOfFuelBlockHeights),
            forall|i: int| 0 <= i < r.0@.len() ==> #[trigger] r.0@[i].spec_height() == old(self).spec_next_fuel_block() + i,
            final(self).spec_start() == old(self).spec_start(),
            final(self).spec_emitted() == old(self).spec_emitted() + heights(r.0@),
            old(self).in_stream() ==> forall|i: int|
                0 <= i < final(self).spec_emitted().len() ==> #[trigger] final(self).spec_emitted()[i]
                    == final(self).spec_start() + i,
            old(self).in_stream() && r.1 is Ok ==> final(self).in_stream(),
    {
        let ghost bs = views(bundle.blocks@);
        let ghost old_blocks = self.block_buffer@;
        let mut i: usize = 0;
        assert(decoded_heights(bs.take(0)) =~= Set::<u32>::empty());
        assert(old_blocks.dom() + Set::<u32>::empty() =~= old_blocks.dom());
        while i < bundle.blocks.len()
            invariant
                i <= bundle.blocks.len(),
                bs == views(bundle.blocks@),
                old_blocks == old(self).spec_blocks(),
                self.wf(),
                self.spec_target_contract() == old(self).spec_target_contract(),
                self.spec_bundles() == old(self).spec_bundles(),
                self.spec_next_fuel_block() == old(self).spec_next_fuel_block(),
                self.spec_start() == old(self).spec_start(),
                self.spec_emitted() == old(self).spec_emitted(),
                all_decode(bs.take(i as int)),
                pushed_at(old_blocks, decoded_heights(bs.take(i as int)), self.block_buffer@),
                last_wins(bs.take(i as int), self.block_buffer@),
            decreases bundle.blocks.len() - i,
        {
            let ghost before = self.block_buffer@;
            assert(bs[i as int] == bundle.blocks@[i as int]@);
            match DaBlock::decode(bundle.blocks[i].as_slice()) {
                Ok(b) => {
                    let ghost h = b.spec_height();
                    self.block_buffer.push(b);
                    assert(decoded_heights(bs.take(i + 1)) =~= decoded_heights(bs.take(i as int)).insert(h)) by {
                        assert forall|x: u32| decoded_heights(bs.take(i + 1)).contains(x) implies decoded_heights(
                            bs.take(i as int),
                        ).insert(h).contains(x) by {
                            let k = choose|k: int| 0 <= k < bs.take(i + 1).len() && compressed_block_height(#[trigger] bs.take(i + 1)[k]) == Some(x);
                            if k < i {
                                assert(bs.take(i as int)[k] == bs.take(i + 1)[k]);
                            }
                        }
                        assert forall|x: u32| decoded_heights(bs.take(i as int)).insert(h).contains(x) implies decoded_heights(
                            bs.take(i + 1),
                        ).contains(x) by {
                            if x == h {
                                assert(bs.take(i + 1)[i as int] == bs[i as int]);
                            } else {
                                let k = choose|k: int| 0 <= k < bs.take(i as int).len() && compressed_block_height(#[trigger] bs.take(i as int)[k]) == Some(x);
                                assert(bs.take(i + 1)[k] == bs.take(i as int)[k]);
                            }
                        }
                    }
                    assert forall|k: int| 0 <= k < bs.take(i + 1).len() implies (#[trigger] compressed_block_height(bs.take(i + 1)[k])) is Some by {
                        if k < i {
                            assert(bs.take(i as int)[k] == bs.take(i + 1)[k]);
                        }
                    }
                    assert(self.block_buffer@.dom() =~= old_blocks.dom() + decoded_heights(bs.take(i + 1)));
                    assert(bs.take(i + 1).drop_last() =~= bs.take(i as int));
                    assert(bs.take(i + 1).last() == bs[i as int]);
                    assert forall|x: u32| #[trigger] decoded_heights(bs.take(i + 1)).contains(x) implies self.block_buffer@[x].spec_bytes()
                        == last_at(bs.take(i + 1), x) by {
                        if x != h {
                            assert(decoded_heights(bs.take(i as int)).contains(x));
                        }
                    }
                },
                Err(e) => {
                    assert(!all_decode(bs)) by {
                        assert(compressed_block_height(bs[i as int]) is None);
                    }
                    assert(compressed_block_height(views(bundle.blocks@)[i as int]) is None);
                    assert(self.spec_emitted() + heights(Seq::<DaBlock>::empty()) =~= self.spec_emitted());
                    return (Vec::new(), Err(DownloadError::BlockDecode(e)));
                },
            }
            i = i + 1;
        }
        assert(bs.take(bs.len() as int) =~= bs);
        let ghost pushed = self.block_buffer@;
        let r = self.drain_ready();
        assert(pushed_at(old(self).spec_blocks(), decoded_heights(bs), pushed));
        assert(last_wins(bs, pushed));
        r
    }

    /// Takes the blobs that the beacon holds for a layer-one block (`None` where the
    /// next block names no beacon block root), adds those the block's transactions
    /// from the target contract point to into their bundles, and decodes and emits
    /// the blocks of every bundle this completes, in height order.
    pub fn process_block(&mut self, this_block: &EthBlock, sidecars: Option<BlobSidecarResponse>) -> (r: (
        Vec<DaBlock>,
        Result<(), DownloadError>,
    ))
        requires
            old(self).wf(),
        ensures
            final(self).wf(),
            final(self).spec_target_contract() == old(self).spec_target_contract(),
            forall|i: int|
                0 <= i < r.0@.len() ==> #[trigger] r.0@[i].spec_height() == old(self).spec_next_fuel_block()
                    + i,
            r.1 is Ok ==> final(self).spec_next_fuel_block() == old(self).spec_next_fuel_block() + r.0@.len(),
            final(self).spec_start() == old(self).spec_start(),
            final(self).spec_emitted() == old(self).spec_emitted() + heights(r.0@),
            old(self).in_stream() ==> forall|i: int|
                0 <= i < final(self).spec_emitted().len() ==> #[trigger] final(self).spec_emitted()[i]
                    == final(self).spec_start() + i,
            old(self).in_stream() && r.1 is Ok ==> final(self).in_stream(),
            sidecars is None ==> {
                &&& r.0@.len() == 0
                &&& r.1 is Ok
                &&& final(self).spec_bundles() == old(self).spec_bundles()
                &&& final(self).spec_blocks() == old(self).spec_blocks()
            },
            sidecars matches Some(sc) ==> match sidecar_blobs(
                sc.data@,
                block_blob_hashes(this_block.transactions@, old(self).spec_target_contract()),
            ) {
                Err(f) => {
                    &&& r.0@.len() == 0
                    &&& r.1 matches Err(DownloadError::Beacon(e)) && failure_of(e) == f
                    &&& final(self).spec_bundles() == old(self).spec_bundles()
                    &&& final(self).spec_blocks() == old(self).spec_blocks()
                    &&& final(self).spec_next_fuel_block() == old(self).spec_next_fuel_block()
                },
                Ok(blobs) => {
                    &&& outcomes(
                        old(self).spec_bundles(),
                        old(self).spec_blocks(),
                        old(self).spec_next_fuel_block(),
                        blobs,
                    ).contains(
                        (
                            final(self).spec_bundles(),
                            final(self).spec_blocks(),
                            final(self).spec_next_fuel_block(),
                            r.0@,
                            status_of(r.1),
                        ),
                    )
                    &&& r.1 is Ok ==> final(self).spec_bundles() == insert_all(old(self).spec_bundles(), blobs)
                },
            },
    {
        assert(self.spec_emitted() + heights(Seq::<DaBlock>::empty()) =~= self.spec_emitted());
        let blob_ids = get_block_tx_blobs(this_block, &self.target_contract);
        let sc = match sidecars {
            Some(s) => s,
            None => {
                return (Vec::new(), Ok(()));
            },
        };
        let blobs = match get_blobs_from_beacon_response(sc, blob_ids) {
            Ok(b) => b,
            Err(e) => {
                return (Vec::new(), Err(DownloadError::Beacon(e)));
            },
        };
        let ghost bseq = blobs@.map_values(|b: Blob| b@);
        let ghost n0 = self.next_fuel_block;
        let mut out: Vec<DaBlock> = Vec::new();
        let mut rest = blobs;
        let mut j: usize = 0;
        let ghost total = rest.len();
        assert(bseq.take(0) =~= Seq::<Seq<u8>>::empty());
        while rest.len() > 0
            invariant
                self.wf(),
                self.spec_target_contract() == old(self).spec_target_contract(),
                sidecars is Some,
                sidecar_blobs(
                    sidecars->0.data@,
                    block_blob_hashes(this_block.transactions@, old(self).spec_target_contract()),
                ) == Ok::<Seq<Seq<u8>>, BeaconFailure>(bseq),
                j + rest.len() == total,
                total == bseq.len(),
                forall|k: int| 0 <= k < rest.len() ==> #[trigger] rest@[k]@ == bseq[j + k],
                self.spec_bundles() == insert_all(old(self).spec_bundles(), bseq.take(j as int)),
                n0 == old(self).spec_next_fuel_block(),
                self.next_fuel_block == n0 + out@.len(),
                forall|i: int| 0 <= i < out@.len() ==> #[trigger] out@[i].spec_height() == n0 + i,
                self.spec_start() == old(self).spec_start(),
                self.spec_emitted() == old(self).spec_emitted() + heights(out@),
                old(self).in_stream() ==> forall|i: int|
                    0 <= i < self.spec_emitted().len() ==> #[trigger] self.spec_emitted()[i] == self.spec_start() + i,
                outcomes(old(self).spec_bundles(), old(self).spec_blocks(), n0, bseq.take(j as int)).contains(
                    (self.spec_bundles(), self.spec_blocks(), self.next_fuel_block, out@, None::<FailureKind>),
                ),
            decreases rest.len(),
        {
            let ghost old_rest = rest@;
            let blob = rest.remove(0);
            assert(rest@ == old_rest.remove(0));
            assert(blob@ == bseq[j as int]);
            assert(bseq.take(j + 1).drop_last() =~= bseq.take(j as int));
            let ghost b0 = self.spec_bundles();
            let ghost k0 = self.spec_blocks();
            let ghost p: Progress = (b0, k0, self.next_fuel_block, out@, None);
            assert(bseq.take(j + 1).last() == blob@);
            match self.bundle_buffers.insert(blob) {
                Err(e) => {
                    proof {
                        let st = status_of(Err(DownloadError::Bundle(e)));
                        assert(blob_step(b0, k0, p.2, blob@, self.spec_bundles(), self.spec_blocks(), self.next_fuel_block, Seq::empty(), st));
                        lemma_one_more_blob(old(self).spec_bundles(), old(self).spec_blocks(), n0, bseq.take(j + 1), p, self.spec_bundles(), self.spec_blocks(), self.next_fuel_block, Seq::empty(), st);
                        assert(out@ + Seq::<DaBlock>::empty() =~= out@);
                        lemma_failure_stands(old(self).spec_bundles(), old(self).spec_blocks(), n0, bseq, j + 1, (self.spec_bundles(), self.spec_blocks(), self.next_fuel_block, out@, st));
                    }
                    return (out, Err(DownloadError::Bundle(e)));
                },
                Ok(Inserted::Incomplete) => {
                    proof {
                        assert(blob_step(b0, k0, p.2, blob@, self.spec_bundles(), self.spec_blocks(), self.next_fuel_block, Seq::empty(), None));
                        lemma_one_more_blob(old(self).spec_bundles(), old(self).spec_blocks(), n0, bseq.take(j + 1), p, self.spec_bundles(), self.spec_blocks(), self.next_fuel_block, Seq::empty(), None);
                        assert(out@ + Seq::<DaBlock>::empty() =~= out@);
                    }
                },
                Ok(Inserted::Complete(bundle)) => {
                    let ghost bs = views(bundle.blocks@);
                    assert(bundle.blocks@.map_values(|x: Vec<u8>| x@) =~= bs);
                    let ghost before_blocks = self.block_buffer@;
                    let ghost next_before = self.next_fuel_block;
                    let (emitted, res) = self.absorb_bundle(bundle);
                    let ghost prev = out@;
                    let mut emitted = emitted;
                    proof {
                        if all_decode(bs) {
                            let pushed = choose|pushed: Map<u32, DaBlock>|
                                pushed_at(before_blocks, decoded_heights(bs), pushed) && drained(
                                    pushed,
                                    next_before,
                                    emitted@,
                                    self.block_buffer@,
                                    self.next_fuel_block,
                                    res is Ok,
                                );
                            lemma_drained_heights(pushed, next_before, emitted@, self.block_buffer@, self.next_fuel_block, res is Ok);
                        }
                        assert(blob_step(b0, k0, p.2, blob@, self.spec_bundles(), self.spec_blocks(), self.next_fuel_block, emitted@, status_of(res)));
                        lemma_one_more_blob(old(self).spec_bundles(), old(self).spec_blocks(), n0, bseq.take(j + 1), p, self.spec_bundles(), self.spec_blocks(), self.next_fuel_block, emitted@, status_of(res));
                    }
                    let ghost em = emitted@;
                    out.append(&mut emitted);
                    assert(out@ == prev + em);
                    assert forall|i: int| 0 <= i < out@.len() implies #[trigger] out@[i].spec_height() == n0 + i by {
                        if i < prev.len() {
                            assert(out@[i] == prev[i]);
                        } else {
                            assert(out@[i] == em[i - prev.len()]);
                        }
                    }
                    match res {
                        Err(e) => {
                            proof {
                                lemma_failure_stands(old(self).spec_bundles(), old(self).spec_blocks(), n0, bseq, j + 1, (self.spec_bundles(), self.spec_blocks(), self.next_fuel_block, out@, status_of(res)));
                            }
                            return (out, Err(e));
                        },
                        Ok(()) => {},
                    }
                },
            }
            j = j + 1;
            assert forall|k: int| 0 <= k < rest.len() implies #[trigger] rest@[k]@ == bseq[j + k] by {
                assert(rest@[k] == old_rest[k + 1]);
            }
        }
        assert(bseq.take(j as int) =~= bseq);
        (out, Ok(()))
    }
}

} // verus!
