use fuel_block_committer_encoding::{blob, bundle};
use watchtower::downloader::bundle_buffer::{IncompleteBundleBuffers, InsertError, Inserted};

/// Bytes that do not compress well, so that a bundle spans several blobs.
fn noise(len: usize, seed: u64) -> Vec<u8> {
    let mut x = seed.wrapping_mul(6364136223846793005).wrapping_add(1442695040888963407);
    (0..len)
        .map(|_| {
            x = x.wrapping_mul(6364136223846793005).wrapping_add(1442695040888963407);
            (x >> 33) as u8
        })
        .collect()
}

fn encode(blocks: Vec<Vec<u8>>, id: u32) -> Vec<blob::Blob> {
    let data = bundle::Encoder::default()
        .encode(bundle::Bundle::V1(bundle::BundleV1 { blocks }))
        .unwrap();
    blob::Encoder::default().encode(&data, id).unwrap()
}

fn complete_blocks(r: Result<Inserted, InsertError>) -> Vec<Vec<u8>> {
    match r {
        Ok(Inserted::Complete(b)) => b.blocks,
        Ok(Inserted::Incomplete) => panic!("Expected a complete bundle"),
        Err(_) => panic!("Expected a complete bundle, got an error"),
    }
}

fn is_incomplete(r: &Result<Inserted, InsertError>) -> bool {
    matches!(r, Ok(Inserted::Incomplete))
}

#[test]
fn single_blob_bundle_completes_at_once() {
    let blocks = vec![vec![1, 2, 3], vec![4, 5]];
    let mut parts = encode(blocks.clone(), 7);
    assert_eq!(parts.len(), 1);
    let mut buffers = IncompleteBundleBuffers::default();
    let result = buffers.insert(parts.pop().unwrap());
    assert_eq!(complete_blocks(result), blocks);
}

#[test]
fn single_bundle_any_order_works_in_reverse() {
    let blocks = vec![noise(150_000, 1), noise(150_000, 2)];
    let mut parts = encode(blocks.clone(), 42);
    assert!(parts.len() >= 3);
    parts.reverse();
    let mut buffers = IncompleteBundleBuffers::new();
    let final_part = parts.pop().unwrap();
    for part in parts {
        assert!(is_incomplete(&buffers.insert(part)));
    }
    assert_eq!(complete_blocks(buffers.insert(final_part)), blocks);
}

#[test]
fn single_bundle_any_order_works_rotated() {
    let blocks = vec![noise(300_000, 3)];
    let mut parts = encode(blocks.clone(), u32::MAX);
    assert!(parts.len() >= 3);
    parts.rotate_left(1);
    let mut buffers = IncompleteBundleBuffers::new();
    let final_part = parts.pop().unwrap();
    for part in parts {
        assert!(is_incomplete(&buffers.insert(part)));
    }
    assert_eq!(complete_blocks(buffers.insert(final_part)), blocks);
}

#[test]
fn duplicate_blob_is_rejected() {
    let parts = encode(vec![noise(200_000, 4)], 1);
    assert!(parts.len() >= 2);
    let mut buffers = IncompleteBundleBuffers::new();
    assert!(is_incomplete(&buffers.insert(parts[0].clone())));
    match buffers.insert(parts[0].clone()) {
        Err(InsertError::DuplicateBlob { idx }) => assert_eq!(idx, 0),
        _ => panic!("expected a duplicate"),
    }
    // the buffer is unchanged: the rest still completes the bundle
    let mut last = None;
    for part in parts.into_iter().skip(1) {
        last = Some(buffers.insert(part));
    }
    assert_eq!(complete_blocks(last.unwrap()), vec![noise(200_000, 4)]);
}

#[test]
fn unreadable_header_is_rejected() {
    let zero: blob::Blob = Box::new([0u8; 131072]);
    let mut buffers = IncompleteBundleBuffers::new();
    assert!(matches!(buffers.insert(zero), Err(InsertError::Header(_))));
}

#[test]
fn multiple_bundles_interspersed_works() {
    let a_blocks = vec![noise(200_000, 5)];
    let b_blocks = vec![noise(100, 6), noise(200_000, 7)];
    let a = encode(a_blocks.clone(), 10);
    let b = encode(b_blocks.clone(), 11);
    assert!(a.len() >= 2 && b.len() >= 2);
    let mut buffers = IncompleteBundleBuffers::new();
    assert!(is_incomplete(&buffers.insert(b[1].clone())));
    assert!(is_incomplete(&buffers.insert(a[0].clone())));
    for part in b.iter().skip(2) {
        assert!(is_incomplete(&buffers.insert(part.clone())));
    }
    for part in a.iter().skip(1).take(a.len() - 2) {
        assert!(is_incomplete(&buffers.insert(part.clone())));
    }
    assert_eq!(complete_blocks(buffers.insert(a[a.len() - 1].clone())), a_blocks);
    assert_eq!(complete_blocks(buffers.insert(b[0].clone())), b_blocks);
}

#[test]
fn completed_bundle_leaves_the_buffers() {
    let blocks = vec![vec![9u8; 10]];
    let parts = encode(blocks.clone(), 3);
    let mut buffers = IncompleteBundleBuffers::new();
    assert_eq!(complete_blocks(buffers.insert(parts[0].clone())), blocks);
    // the bundle is gone, so the same blob starts it again rather than being a duplicate
    assert_eq!(complete_blocks(buffers.insert(parts[0].clone())), blocks);
}

/// A blob whose header, after the first two bits, carries version `version`, then
/// the given fields, each most significant bit first.
fn blob_with_header(version: u64, bundle_id: u64, num_bits: u64, is_last: bool, idx: u64) -> blob::Blob {
    let mut bytes = Box::new([0u8; 131072]);
    let mut put = |start: usize, len: usize, value: u64| {
        for i in 0..len {
            if (value >> (len - 1 - i)) & 1 == 1 {
                let bit = start + i;
                bytes[bit / 8] |= 0x80 >> (bit % 8);
            }
        }
    };
    put(2, 16, version);
    put(18, 32, bundle_id);
    put(50, 21, num_bits);
    put(71, 1, is_last as u64);
    put(72, 17, idx);
    bytes
}

#[test]
fn header_fields_are_read_from_their_bits() {
    let mut buffers = IncompleteBundleBuffers::new();
    let first = blob_with_header(1, 7, 1000, false, 1);
    assert!(is_incomplete(&buffers.insert(first)));
    let again = blob_with_header(1, 7, 1000, false, 1);
    assert!(matches!(buffers.insert(again), Err(InsertError::DuplicateBlob { idx: 1 })));
    let other_bundle = blob_with_header(1, 8, 1000, false, 1);
    assert!(is_incomplete(&buffers.insert(other_bundle)));
}

#[test]
fn unknown_header_version_is_rejected() {
    let mut buffers = IncompleteBundleBuffers::new();
    let b = blob_with_header(2, 7, 1000, true, 0);
    assert!(matches!(buffers.insert(b), Err(InsertError::Header(_))));
}

#[test]
fn too_few_data_bits_to_take_apart_is_rejected() {
    let mut buffers = IncompleteBundleBuffers::new();
    let b = blob_with_header(1, 3, 5, true, 0);
    assert!(matches!(buffers.insert(b), Err(InsertError::UndecodableLayout { idx: 0 })));
}

#[test]
fn one_bit_past_a_field_element_is_rejected() {
    let mut buffers = IncompleteBundleBuffers::new();
    let first = blob_with_header(1, 4, 1000, false, 0);
    assert!(is_incomplete(&buffers.insert(first)));
    let last = blob_with_header(1, 4, 257, true, 1);
    assert!(matches!(buffers.insert(last), Err(InsertError::UndecodableLayout { idx: 1 })));
}
