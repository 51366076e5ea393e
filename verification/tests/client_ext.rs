use fuel_core_types::fuel_crypto::{Message, SecretKey, Signature};
use watchtower::client_ext::{Consensus, FullBlock, PoAConsensus};

#[test]
fn genesis_block_producer_is_the_zero_key() {
    let block = FullBlock { id: [3u8; 32], consensus: Consensus::Genesis };
    assert_eq!(block.block_producer(), Some([0u8; 64]));
}

#[test]
fn unknown_consensus_has_no_producer() {
    let block = FullBlock { id: [3u8; 32], consensus: Consensus::Unknown };
    assert_eq!(block.block_producer(), None);
}

#[test]
fn signed_block_producer_is_recovered() {
    let secret = SecretKey::try_from(&[0x11u8; 32][..]).unwrap();
    let id = [0x42u8; 32];
    let signature = Signature::sign(&secret, &Message::from_bytes(id));
    let block = FullBlock { id, consensus: Consensus::PoAConsensus(PoAConsensus { signature: *signature }) };
    assert_eq!(block.block_producer(), Some(*secret.public_key()));
    // another id recovers another key
    let other = FullBlock { id: [0x43u8; 32], consensus: Consensus::PoAConsensus(PoAConsensus { signature: *signature }) };
    assert_ne!(other.block_producer(), Some(*secret.public_key()));
}
