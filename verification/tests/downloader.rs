use fuel_block_committer_encoding::{blob, bundle};
use fuel_core_compression::VersionedCompressedBlock;
use sha2::{Digest, Sha256};
use watchtower::downloader::{
    get_block_tx_blobs, get_blobs_from_beacon_response, strip_hex_prefix, BeaconError, BlobData,
    BlobSidecarResponse, DownloadError, Downloader, EthBlock, EthTransaction,
};
use watchtower::downloader::Config;
use watchtower::external::HexError;

const CONTRACT: [u8; 20] = [7u8; 20];

fn url(s: &str) -> url::Url {
    url::Url::parse(s).unwrap()
}

fn mock_block(height: u32) -> VersionedCompressedBlock {
    let mut block = VersionedCompressedBlock::default();
    match block {
        VersionedCompressedBlock::V0(ref mut v0) => {
            v0.header.consensus.height = height.into();
        }
        #[allow(unreachable_patterns)]
        _ => panic!("unexpected block version"),
    }
    block
}

fn blobs_for_heights(heights: &[u32], id: u32) -> Vec<blob::Blob> {
    let blocks = heights
        .iter()
        .map(|h| postcard::to_allocvec(&mock_block(*h)).unwrap())
        .collect();
    let data = bundle::Encoder::default()
        .encode(bundle::Bundle::V1(bundle::BundleV1 { blocks }))
        .unwrap();
    blob::Encoder::default().encode(&data, id).unwrap()
}

fn versioned_hash(commitment: &[u8]) -> Vec<u8> {
    let digest = Sha256::digest(commitment);
    let mut h = vec![1u8];
    h.extend_from_slice(&digest[1..]);
    h
}

fn tx(from: [u8; 20], ty: Option<u8>, hashes: Option<Vec<Vec<u8>>>) -> EthTransaction {
    EthTransaction { from, transaction_type: ty, blob_versioned_hashes: hashes }
}

/// A layer-one block whose blob transaction points at `blobs`, and the beacon's
/// answer that holds them, each under its own commitment.
fn block_and_sidecars(blobs: &[blob::Blob], seed: u8) -> (EthBlock, BlobSidecarResponse) {
    let mut hashes = Vec::new();
    let mut data = Vec::new();
    for (i, b) in blobs.iter().enumerate() {
        let commitment = vec![seed, i as u8, 3, 4];
        hashes.push(versioned_hash(&commitment));
        data.push(BlobData {
            blob: format!("0x{}", hex::encode(b.as_slice())).into_bytes(),
            kzg_commitment: format!("0x{}", hex::encode(&commitment)).into_bytes(),
        });
    }
    let block = EthBlock { transactions: vec![tx(CONTRACT, Some(3), Some(hashes))] };
    (block, BlobSidecarResponse { data })
}

fn downloader(next_fuel_block: u32) -> Downloader {
    let mut config = Config::new(url("http://eth.example"), url("http://beacon.example"), CONTRACT);
    config.set_next_fuel_block(next_fuel_block);
    Downloader::new(config)
}

#[test]
fn config_new_starts_at_zero_and_setters_set() {
    let mut config = Config::new(url("http://a.example"), url("http://b.example"), CONTRACT);
    assert_eq!(config.da_start_block, 0);
    assert_eq!(config.next_fuel_block, 0);
    config.set_da_start_block(6894445);
    config.set_next_fuel_block(0x00d56db2);
    assert_eq!(config.da_start_block, 6894445);
    assert_eq!(config.next_fuel_block, 0x00d56db2);
    assert_eq!(config.ethereum_rpc_url, url("http://a.example"));
    assert_eq!(config.blob_contract, CONTRACT);
}

#[test]
fn tx_blobs_only_from_the_contract_and_type_three() {
    let block = EthBlock {
        transactions: vec![
            tx(CONTRACT, Some(3), Some(vec![vec![1], vec![2]])),
            tx([8u8; 20], Some(3), Some(vec![vec![3]])),
            tx(CONTRACT, Some(2), Some(vec![vec![4]])),
            tx(CONTRACT, None, Some(vec![vec![5]])),
            tx(CONTRACT, Some(3), None),
            tx(CONTRACT, Some(3), Some(vec![vec![6]])),
        ],
    };
    assert_eq!(get_block_tx_blobs(&block, &CONTRACT), vec![vec![1], vec![2], vec![6]]);
}

#[test]
fn hex_prefix_is_stripped_repeatedly() {
    assert_eq!(strip_hex_prefix(&b"0x0xab".to_vec()), b"ab".to_vec());
    assert_eq!(strip_hex_prefix(&b"ab0x".to_vec()), b"ab0x".to_vec());
    assert_eq!(strip_hex_prefix(&b"0x".to_vec()), Vec::<u8>::new());
    assert_eq!(strip_hex_prefix(&b"0".to_vec()), b"0".to_vec());
}

#[test]
fn beacon_response_keeps_the_matching_blobs_in_order() {
    let blobs = blobs_for_heights(&[1], 0);
    let (block, sidecars) = block_and_sidecars(&blobs, 1);
    let hashes = get_block_tx_blobs(&block, &CONTRACT);
    // an extra sidecar that nothing points to
    let mut data = sidecars.data;
    data.insert(0, BlobData { blob: b"zz".to_vec(), kzg_commitment: b"0x0102".to_vec() });
    let out = get_blobs_from_beacon_response(BlobSidecarResponse { data }, hashes).ok().unwrap();
    assert_eq!(out.len(), blobs.len());
    assert_eq!(out[0].as_slice(), blobs[0].as_slice());
}

#[test]
fn beacon_response_with_bad_commitment_fails() {
    let data = vec![BlobData { blob: vec![], kzg_commitment: b"0x123".to_vec() }];
    match get_blobs_from_beacon_response(BlobSidecarResponse { data }, vec![]) {
        Err(BeaconError::CommitmentHex(HexError::OddLength)) => {}
        _ => panic!("expected an odd length"),
    }
    let data = vec![BlobData { blob: vec![], kzg_commitment: b"0x12g4".to_vec() }];
    match get_blobs_from_beacon_response(BlobSidecarResponse { data }, vec![]) {
        Err(BeaconError::CommitmentHex(HexError::InvalidHexCharacter { c, index })) => {
            assert_eq!(c, 'g');
            assert_eq!(index, 2);
        }
        _ => panic!("expected an invalid character"),
    }
}

#[test]
fn beacon_response_with_bad_matching_blob_fails() {
    let commitment = vec![9u8, 9];
    let hashes = vec![versioned_hash(&commitment)];
    let data = vec![BlobData { blob: b"0xabcd".to_vec(), kzg_commitment: b"0x0909".to_vec() }];
    assert!(matches!(
        get_blobs_from_beacon_response(BlobSidecarResponse { data }, hashes.clone()),
        Err(BeaconError::InvalidBlobBytes)
    ));
    let data = vec![BlobData { blob: b"0xabc".to_vec(), kzg_commitment: b"0909".to_vec() }];
    assert!(matches!(
        get_blobs_from_beacon_response(BlobSidecarResponse { data }, hashes),
        Err(BeaconError::BlobHex(HexError::OddLength))
    ));
}

#[test]
fn versioned_hash_is_not_the_commitment() {
    // a hash list that holds the commitment itself, not its versioned hash, matches nothing
    let commitment = vec![5u8; 48];
    let data = vec![BlobData { blob: b"00".to_vec(), kzg_commitment: hex::encode(&commitment).into_bytes() }];
    let out = get_blobs_from_beacon_response(BlobSidecarResponse { data }, vec![commitment]).ok().unwrap();
    assert!(out.is_empty());
}

#[test]
fn process_block_emits_the_bundle_in_height_order() {
    let blobs = blobs_for_heights(&[7, 5, 6], 1);
    let (block, sidecars) = block_and_sidecars(&blobs, 2);
    let mut d = downloader(5);
    let (emitted, result) = d.process_block(&block, Some(sidecars));
    assert!(result.is_ok());
    let heights: Vec<u32> = emitted.iter().map(|b| b.height()).collect();
    assert_eq!(heights, vec![5, 6, 7]);
    assert_eq!(emitted[0].block(), &mock_block(5));
    assert_eq!(d.next_fuel_block(), 8);
}

#[test]
fn process_block_drops_blocks_below_the_next_height() {
    let blobs = blobs_for_heights(&[5, 6, 7], 1);
    let (block, sidecars) = block_and_sidecars(&blobs, 3);
    let mut d = downloader(6);
    let (emitted, result) = d.process_block(&block, Some(sidecars));
    assert!(result.is_ok());
    let heights: Vec<u32> = emitted.iter().map(|b| b.height()).collect();
    assert_eq!(heights, vec![6, 7]);
}

#[test]
fn process_block_waits_for_a_gap() {
    let mut d = downloader(4);
    let (block, sidecars) = block_and_sidecars(&blobs_for_heights(&[5, 6], 1), 4);
    let (emitted, result) = d.process_block(&block, Some(sidecars));
    assert!(result.is_ok());
    assert!(emitted.is_empty());
    assert_eq!(d.next_fuel_block(), 4);
    let (block, sidecars) = block_and_sidecars(&blobs_for_heights(&[4], 2), 5);
    let (emitted, result) = d.process_block(&block, Some(sidecars));
    assert!(result.is_ok());
    let heights: Vec<u32> = emitted.iter().map(|b| b.height()).collect();
    assert_eq!(heights, vec![4, 5, 6]);
    assert_eq!(d.next_fuel_block(), 7);
}

#[test]
fn process_block_without_sidecars_does_nothing() {
    let mut d = downloader(1);
    let (block, _) = block_and_sidecars(&blobs_for_heights(&[1], 1), 6);
    let (emitted, result) = d.process_block(&block, None);
    assert!(result.is_ok());
    assert!(emitted.is_empty());
    assert_eq!(d.next_fuel_block(), 1);
}

#[test]
fn process_block_ignores_blobs_of_other_senders() {
    let mut d = downloader(1);
    let (mut block, sidecars) = block_and_sidecars(&blobs_for_heights(&[1], 1), 7);
    block.transactions[0].from = [1u8; 20];
    let (emitted, result) = d.process_block(&block, Some(sidecars));
    assert!(result.is_ok());
    assert!(emitted.is_empty());
}

#[test]
fn out_of_fuel_block_heights_after_the_last_height() {
    let mut d = downloader(u32::MAX);
    let (block, sidecars) = block_and_sidecars(&blobs_for_heights(&[u32::MAX], 1), 8);
    let (emitted, result) = d.process_block(&block, Some(sidecars));
    assert_eq!(emitted.len(), 1);
    assert_eq!(emitted[0].height(), u32::MAX);
    assert!(matches!(result, Err(DownloadError::OutOfFuelBlockHeights)));
}

#[test]
fn undecodable_block_in_a_bundle_fails() {
    let data = bundle::Encoder::default()
        .encode(bundle::Bundle::V1(bundle::BundleV1 { blocks: vec![vec![]] }))
        .unwrap();
    let blobs = blob::Encoder::default().encode(&data, 9).unwrap();
    let (block, sidecars) = block_and_sidecars(&blobs, 9);
    let mut d = downloader(0);
    let (emitted, result) = d.process_block(&block, Some(sidecars));
    assert!(emitted.is_empty());
    assert!(matches!(result, Err(DownloadError::BlockDecode(_))));
}

#[test]
fn process_block_keeps_what_it_emitted_before_a_failing_blob() {
    // the first blob completes a bundle whose block at height 3 is emitted at once; the
    // second has no readable header, which stops the block there
    let first = blobs_for_heights(&[3], 1);
    let unreadable: blob::Blob = Box::new([0u8; 131072]);
    let all = vec![first[0].clone(), unreadable];
    let (block, sidecars) = block_and_sidecars(&all, 12);
    let mut d = downloader(3);
    let (emitted, result) = d.process_block(&block, Some(sidecars));
    let heights: Vec<u32> = emitted.iter().map(|b| b.height()).collect();
    assert_eq!(heights, vec![3]);
    assert_eq!(d.next_fuel_block(), 4);
    assert!(matches!(result, Err(DownloadError::Bundle(_))));
}

fn mock_block_at_da(height: u32, da_height: u64) -> VersionedCompressedBlock {
    let mut block = mock_block(height);
    match block {
        VersionedCompressedBlock::V0(ref mut v0) => {
            v0.header.application.da_height = da_height.into();
        }
        #[allow(unreachable_patterns)]
        _ => panic!("unexpected block version"),
    }
    block
}

#[test]
fn process_block_keeps_the_later_block_at_a_repeated_height() {
    let blocks = vec![
        postcard::to_allocvec(&mock_block_at_da(5, 1)).unwrap(),
        postcard::to_allocvec(&mock_block_at_da(5, 2)).unwrap(),
    ];
    let data = bundle::Encoder::default()
        .encode(bundle::Bundle::V1(bundle::BundleV1 { blocks }))
        .unwrap();
    let blobs = blob::Encoder::default().encode(&data, 1).unwrap();
    let (block, sidecars) = block_and_sidecars(&blobs, 13);
    let mut d = downloader(5);
    let (emitted, result) = d.process_block(&block, Some(sidecars));
    assert!(result.is_ok());
    assert_eq!(emitted.len(), 1);
    assert_eq!(emitted[0].block(), &mock_block_at_da(5, 2));
}
