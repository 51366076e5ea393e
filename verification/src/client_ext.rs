//! What the GraphQL client extension reads of a full block: who produced it.
use vstd::prelude::*;

use crate::external::{recover_public_key, recovered_public_key};

verus! {

/// How a block was sealed.
pub enum Consensus {
    /// The genesis block.
    Genesis,
    /// A block signed by its producer.
    PoAConsensus(PoAConsensus),
    /// A kind of consensus this client does not know.
    Unknown,
}

/// The producer's signature over the block id.
pub struct PoAConsensus {
    pub signature: [u8; 64],
}

/// What the logic reads of a full block.
pub struct FullBlock {
    /// The block id, which the producer signs.
    pub id: [u8; 32],
    pub consensus: Consensus,
}

impl FullBlock {
    /// Returns the block producer public key, if any: the all-zero key for the genesis
    /// block, the key recovered from the signature over the block id for a signed block,
    /// and none for an unknown consensus.
    pub fn block_producer(&self) -> (r: Option<[u8; 64]>)
        ensures
            self.consensus is Genesis ==> (r matches Some(k) && k@ == Seq::new(64, |i: int| 0u8)),
            self.consensus matches Consensus::PoAConsensus(poa) ==> match r {
                Some(k) => recovered_public_key(poa.signature@, self.id@) == Some(k@),
                None => recovered_public_key(poa.signature@, self.id@) is None,
            },
            self.consensus is Unknown ==> r is None,
    {
        match &self.consensus {
            Consensus::Genesis => {
                let k = [0u8; 64];
                assert(k@ =~= Seq::new(64, |i: int| 0u8));
                Some(k)
            },
            Consensus::PoAConsensus(poa) => recover_public_key(&poa.signature, &self.id),
            Consensus::Unknown => None,
        }
    }
}

} // verus!
