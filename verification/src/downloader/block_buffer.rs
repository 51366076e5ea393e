//! The outgoing buffer of decoded compressed blocks, keyed by height.
use std::collections::BTreeMap;
use vstd::prelude::*;

use crate::btree_util::first_key;
use crate::external::{compressed_block_height, decode_compressed_block};
use fuel_core_compression::VersionedCompressedBlock;

verus! {

/// A compressed Fuel block decoded from the data-availability layer, with its height.
pub struct DaBlock {
    height: u32,
    block: VersionedCompressedBlock,
    /// The bytes the block was decoded from.
    bytes: Ghost<Seq<u8>>,
}

impl DaBlock {
    /// The height of the block.
    pub closed spec fn spec_height(&self) -> u32 {
        self.height
    }

    /// The decoded block that this wrapper holds.
    pub closed spec fn spec_block(&self) -> VersionedCompressedBlock {
        self.block
    }

    /// The bytes the block was decoded from.
    pub closed spec fn spec_bytes(&self) -> Seq<u8> {
        self.bytes@
    }

    /// Decodes a block from its `postcard` encoding.
    pub fn decode(bytes: &[u8]) -> (r: Result<DaBlock, postcard::Error>)
        ensures
            match r {
                Ok(b) => compressed_block_height(bytes@) == Some(b.spec_height()) && b.spec_bytes() == bytes@,
                Err(_) => compressed_block_height(bytes@) is None,
            },
    {
        match decode_compressed_block(bytes) {
            Ok((block, height)) => Ok(DaBlock { height, block, bytes: Ghost(bytes@) }),
            Err(e) => Err(e),
        }
    }

    /// The height of the block.
    pub fn height(&self) -> (h: u32)
        ensures
            h == self.spec_height(),
    {
        self.height
    }

    /// The decoded block.
    pub fn block(&self) -> (b: &VersionedCompressedBlock)
        ensures
            *b == self.spec_block(),
    {
        &self.block
    }

    /// Gives up the wrapper and returns the decoded block.
    pub fn into_block(self) -> (b: VersionedCompressedBlock)
        ensures
            b == self.spec_block(),
    {
        self.block
    }
}

/// The entries of `m` whose keys are at least `height`.
pub open spec fn at_or_above<V>(m: Map<u32, V>, height: u32) -> Map<u32, V> {
    m.restrict(m.dom().filter(|k: u32| k >= height))
}

/// `k` is the smallest key of `m`.
pub open spec fn is_first_key<V>(m: Map<u32, V>, k: u32) -> bool {
    m.contains_key(k) && forall|j: u32| #[trigger] m.contains_key(j) ==> k <= j
}

/// Calls `BTreeMap::split_off`. Its documentation: the map is split in two at the
/// key; everything from the key on is returned, the rest stays.
#[verifier::external_body]
fn split_off_at<V>(m: &mut BTreeMap<u32, V>, key: u32) -> (r: BTreeMap<u32, V>)
    ensures
        r@ == at_or_above(old(m)@, key),
        final(m)@ == old(m)@.restrict(old(m)@.dom().filter(|k: u32| k < key)),
{
    m.split_off(&key)
}

/// Decoded blocks waiting to be emitted, by height.
pub struct BlockBuffer {
    blocks: BTreeMap<u32, DaBlock>,
}

impl View for BlockBuffer {
    type V = Map<u32, DaBlock>;

    closed spec fn view(&self) -> Map<u32, DaBlock> {
        self.blocks@
    }
}

impl BlockBuffer {
    /// Every block is held under its own height.
    pub open spec fn wf(&self) -> bool {
        forall|h: u32| #[trigger] self@.contains_key(h) ==> self@[h].spec_height() == h
    }

    /// An empty buffer.
    pub fn new() -> (r: Self)
        ensures
            r.wf(),
            r@ == Map::<u32, DaBlock>::empty(),
    {
        BlockBuffer { blocks: BTreeMap::new() }
    }

    /// Adds a block under its height, replacing any block held there.
    pub fn push(&mut self, block: DaBlock)
        requires
            old(self).wf(),
        ensures
            final(self).wf(),
            final(self)@ == old(self)@.insert(block.spec_height(), block),
    {
        broadcast use vstd::std_specs::btree::group_btree_axioms, vstd::laws_cmp::group_laws_cmp;
        let h = block.height();
        self.blocks.insert(h, block);
        assert forall|k: u32| #[trigger] self@.contains_key(k) implies self@[k].spec_height() == k by {
            if k != h {
                assert(old(self)@.contains_key(k));
            }
        }
    }

    /// Given "high water mark" block height, remove all blocks below it.
    pub fn prune_below(&mut self, height: u32)
        requires
            old(self).wf(),
        ensures
            final(self).wf(),
            final(self)@ == at_or_above(old(self)@, height),
    {
        self.blocks = split_off_at(&mut self.blocks, height);
        assert forall|h: u32| #[trigger] self@.contains_key(h) implies self@[h].spec_height() == h by {
            assert(old(self)@.contains_key(h));
        }
    }

    /// If the first entry has given height, remove and return it.
    pub fn pop_height(&mut self, height: u32) -> (r: Option<DaBlock>)
        requires
            old(self).wf(),
        ensures
            final(self).wf(),
            is_first_key(old(self)@, height) ==> r == Some(old(self)@[height]) && final(self)@
                == old(self)@.remove(height),
            !is_first_key(old(self)@, height) ==> r is None && final(self)@ == old(self)@,
    {
        broadcast use vstd::std_specs::btree::group_btree_axioms, vstd::laws_cmp::group_laws_cmp;
        match first_key(&self.blocks) {
            Some(k) => {
                if k == height {
                    let r = self.blocks.remove(&height);
                    assert forall|h: u32| #[trigger] self@.contains_key(h) implies self@[h].spec_height()
                        == h by {
                        assert(old(self)@.contains_key(h));
                    }
                    r
                } else {
                    None
                }
            },
            None => None,
        }
    }
}

impl Default for BlockBuffer {
    fn default() -> (r: Self)
        ensures
            r.wf(),
            r@ == Map::<u32, DaBlock>::empty(),
    {
        BlockBuffer::new()
    }
}

} // verus!
