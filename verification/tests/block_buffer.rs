use fuel_core_compression::VersionedCompressedBlock;
use watchtower::downloader::block_buffer::{BlockBuffer, DaBlock};

fn mock_block(height: u32) -> VersionedCompressedBlock {
    let mut block = VersionedCompressedBlock::default();
    match block {
        VersionedCompressedBlock::V0(ref mut v0) => {
            v0.header.consensus.height = height.into();
        }
        #[allow(unreachable_patterns)]
        _ => panic!("unexpected block version"),
    }
    block
}

fn da_block(height: u32) -> DaBlock {
    let bytes = postcard::to_allocvec(&mock_block(height)).unwrap();
    DaBlock::decode(&bytes).unwrap()
}

#[test]
fn block_buffer_happy_path() {
    let mut buffer = BlockBuffer::default();

    buffer.push(da_block(1));
    buffer.push(da_block(3));
    buffer.push(da_block(2));

    buffer.prune_below(2u32);

    let block = buffer.pop_height(2u32).map(|b| b.into_block());
    assert_eq!(block, Some(mock_block(2)));

    let block = buffer.pop_height(3u32).map(|b| b.into_block());
    assert_eq!(block, Some(mock_block(3)));
}

#[test]
fn decoded_block_carries_its_height() {
    let block = da_block(77);
    assert_eq!(block.height(), 77);
    assert_eq!(block.block(), &mock_block(77));
}

#[test]
fn decoding_garbage_fails() {
    assert!(DaBlock::decode(&[]).is_err());
}

#[test]
fn pop_height_only_takes_the_first_block() {
    let mut buffer = BlockBuffer::new();
    buffer.push(da_block(4));
    buffer.push(da_block(6));
    assert!(buffer.pop_height(6).is_none());
    assert!(buffer.pop_height(5).is_none());
    assert_eq!(buffer.pop_height(4).map(|b| b.height()), Some(4));
    assert_eq!(buffer.pop_height(6).map(|b| b.height()), Some(6));
    assert!(buffer.pop_height(6).is_none());
}

#[test]
fn prune_below_keeps_the_mark_and_above() {
    let mut buffer = BlockBuffer::new();
    for h in [10u32, 11, 12, 13] {
        buffer.push(da_block(h));
    }
    buffer.prune_below(12);
    assert!(buffer.pop_height(10).is_none());
    assert!(buffer.pop_height(11).is_none());
    assert_eq!(buffer.pop_height(12).map(|b| b.height()), Some(12));
    assert_eq!(buffer.pop_height(13).map(|b| b.height()), Some(13));
}

#[test]
fn pushing_the_same_height_replaces_the_block() {
    let mut buffer = BlockBuffer::new();
    buffer.push(da_block(8));
    buffer.push(da_block(8));
    assert_eq!(buffer.pop_height(8).map(|b| b.height()), Some(8));
    assert!(buffer.pop_height(8).is_none());
}
