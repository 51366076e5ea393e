//! Reassembly of bundles from the blobs that carry them.
use std::collections::HashMap;
use vstd::prelude::*;

use crate::external::{
    blob_header, decodable_layout, blobs_payload, bundle_blocks, decode_blobs, decode_bundle, read_blob_header, Blob,
};

verus! {

/// The header that opens every blob of a bundle.
#[derive(Clone, Copy, Debug, PartialEq, Eq)]
pub struct BlobHeader {
    /// The bundle this blob belongs to.
    pub bundle_id: u32,
    /// Number of bits containing data.
    pub num_bits: u32,
    /// Whether this is the last blob of its bundle.
    pub is_last: bool,
    /// The position of this blob within its bundle.
    pub idx: u32,
}

/// A complete bundle: the encoded blocks it carries.
#[derive(Clone, Debug, PartialEq, Eq)]
pub struct BundleV1 {
    pub blocks: Vec<Vec<u8>>,
}

/// What an insertion into the buffers produced.
pub enum Inserted {
    /// The blob completed its bundle, which has been decoded and removed from the buffers.
    Complete(BundleV1),
    /// The bundle still waits for more blobs.
    Incomplete,
}

/// Why an insertion failed.
pub enum InsertError {
    /// The blob's header could not be read.
    Header(anyhow::Error),
    /// A blob with the same index is already buffered for this bundle.
    DuplicateBlob { idx: u32 },
    /// A blob of the complete bundle declares a number of data bits that the blob
    /// decoder cannot take apart; the blob with this index is the first such.
    UndecodableLayout { idx: u32 },
    /// The blobs of the complete bundle could not be decoded into a payload.
    BlobDecode(anyhow::Error),
    /// The payload of the complete bundle could not be decoded into blocks.
    BundleDecode(anyhow::Error),
}

/// A buffered blob, as the contracts see it: its header and its bytes.
pub type Entry = (BlobHeader, Seq<u8>);

pub open spec fn entry_view(e: (BlobHeader, Blob)) -> Entry {
    (e.0, e.1@)
}

pub open spec fn entries_view(v: Seq<(BlobHeader, Blob)>) -> Seq<Entry> {
    v.map_values(|e: (BlobHeader, Blob)| entry_view(e))
}

/// The blobs of a buffer, in buffer order.
pub open spec fn blobs_of(buf: Seq<Entry>) -> Seq<Seq<u8>> {
    buf.map_values(|e: Entry| e.1)
}

/// The indexes strictly increase along the buffer.
pub open spec fn sorted_by_idx(buf: Seq<Entry>) -> bool {
    forall|i: int, j: int| 0 <= i < j < buf.len() ==> #[trigger] buf[i].0.idx < #[trigger] buf[j].0.idx
}

/// Some buffered blob has this index.
pub open spec fn has_idx(buf: Seq<Entry>, idx: u32) -> bool {
    exists|i: int| 0 <= i < buf.len() && #[trigger] buf[i].0.idx == idx
}

/// A bundle is complete when its blobs carry the indexes 0, 1, 2, ... in order
/// and the last one is marked as the last.
pub open spec fn bundle_complete(buf: Seq<Entry>) -> bool {
    &&& buf.len() > 0
    &&& buf.last().0.is_last
    &&& forall|i: int| 0 <= i < buf.len() ==> #[trigger] buf[i].0.idx == i
}

/// Inserts `e` into a buffer sorted by index, before the first entry whose index is not smaller.
pub open spec fn insert_sorted(buf: Seq<Entry>, e: Entry) -> Seq<Entry>
    decreases buf.len(),
{
    if buf.len() == 0 {
        seq![e]
    } else if buf[0].0.idx < e.0.idx {
        seq![buf[0]] + insert_sorted(buf.drop_first(), e)
    } else {
        seq![e] + buf
    }
}

/// A buffered bundle: not empty, sorted, every blob read to the header stored beside
/// it and belonging to the bundle, and not yet complete.
pub open spec fn buffer_wf(id: u32, buf: Seq<Entry>) -> bool {
    &&& buf.len() > 0
    &&& sorted_by_idx(buf)
    &&& forall|i: int|
        0 <= i < buf.len() ==> (#[trigger] buf[i]).0.bundle_id == id && blob_header(buf[i].1)
            == Some(buf[i].0)
    &&& !bundle_complete(buf)
}

/// The buffer of a bundle, empty where none is held.
pub open spec fn buffer_of(m: Map<u32, Seq<Entry>>, id: u32) -> Seq<Entry> {
    if m.contains_key(id) {
        m[id]
    } else {
        Seq::empty()
    }
}

/// The kind of outcome of one insertion.
#[derive(Clone, Copy, Debug, PartialEq, Eq)]
pub enum InsertKind {
    HeaderUnreadable,
    Duplicate,
    Incomplete,
    Completed,
}

/// What inserting a blob does to the buffers: the new buffers, the kind of outcome,
/// and, for a completed bundle, its blobs in index order.
pub open spec fn insert_step(m: Map<u32, Seq<Entry>>, blob: Seq<u8>) -> (
    Map<u32, Seq<Entry>>,
    InsertKind,
    Seq<Entry>,
) {
    match blob_header(blob) {
        None => (m, InsertKind::HeaderUnreadable, Seq::empty()),
        Some(h) => {
            let buf = buffer_of(m, h.bundle_id);
            if has_idx(buf, h.idx) {
                (m, InsertKind::Duplicate, Seq::empty())
            } else {
                let nb = insert_sorted(buf, (h, blob));
                if bundle_complete(nb) {
                    (m.remove(h.bundle_id), InsertKind::Completed, nb)
                } else {
                    (m.insert(h.bundle_id, nb), InsertKind::Incomplete, Seq::empty())
                }
            }
        },
    }
}

/// Every blob of the buffer has a layout that the blob decoder can take apart.
pub open spec fn layouts_decodable(buf: Seq<Entry>) -> bool {
    forall|i: int| 0 <= i < buf.len() ==> decodable_layout(#[trigger] buf[i].0)
}

/// `k` is the position of the first blob of the buffer whose layout the blob decoder
/// cannot take apart.
pub open spec fn first_undecodable(buf: Seq<Entry>, k: int) -> bool {
    &&& 0 <= k < buf.len()
    &&& !decodable_layout(buf[k].0)
    &&& forall|j: int| 0 <= j < k ==> decodable_layout(#[trigger] buf[j].0)
}

/// A complete bundle is decoded from all of its blobs, in index order: the blobs handed
/// to the blob decoder are as many as the bundle's buffered blobs, and the `i`-th of
/// them is the blob whose header carries index `i`.
pub proof fn lemma_complete_bundle_decoded_from_all_blobs(buf: Seq<Entry>)
    requires
        bundle_complete(buf),
        forall|i: int| 0 <= i < buf.len() ==> blob_header(#[trigger] buf[i].1) == Some(buf[i].0),
    ensures
        blobs_of(buf).len() == buf.len(),
        forall|i: int|
            0 <= i < buf.len() ==> (blob_header(#[trigger] blobs_of(buf)[i]) matches Some(h) && h.idx == i),
{
    assert forall|i: int| 0 <= i < buf.len() implies (blob_header(#[trigger] blobs_of(buf)[i]) matches Some(h)
        && h.idx == i) by {
        assert(blobs_of(buf)[i] == buf[i].1);
        assert(blob_header(buf[i].1) == Some(buf[i].0));
    }
}

/// What is returned for a bundle whose blobs, in index order, are `done`.
pub open spec fn completion_result(done: Seq<Entry>, r: Result<Inserted, InsertError>) -> bool {
    if !layouts_decodable(done) {
        r matches Err(InsertError::UndecodableLayout { idx }) && exists|k: int|
            first_undecodable(done, k) && #[trigger] done[k].0.idx == idx
    } else {
        match blobs_payload(blobs_of(done)) {
            None => r matches Err(InsertError::BlobDecode(_)),
            Some(payload) => match bundle_blocks(payload) {
                None => r matches Err(InsertError::BundleDecode(_)),
                Some(blocks) => r matches Ok(Inserted::Complete(b)) && b.blocks@.map_values(
                    |x: Vec<u8>| x@,
                ) == blocks,
            },
        }
    }
}

/// Inserting at a position that splits the smaller indexes from the larger ones is
/// `insert_sorted`, and keeps the buffer sorted.
pub proof fn lemma_insert_sorted_at(buf: Seq<Entry>, e: Entry, p: int)
    requires
        sorted_by_idx(buf),
        0 <= p <= buf.len(),
        forall|j: int| 0 <= j < p ==> #[trigger] buf[j].0.idx < e.0.idx,
        forall|j: int| p <= j < buf.len() ==> #[trigger] buf[j].0.idx > e.0.idx,
    ensures
        insert_sorted(buf, e) == buf.insert(p, e),
        sorted_by_idx(insert_sorted(buf, e)),
    decreases buf.len(),
{
    if buf.len() == 0 {
        assert(insert_sorted(buf, e) =~= buf.insert(p, e));
    } else if p == 0 {
        assert(buf[0].0.idx > e.0.idx);
        assert(insert_sorted(buf, e) =~= buf.insert(p, e));
    } else {
        let rest = buf.drop_first();
        assert(buf[0].0.idx < e.0.idx);
        assert forall|j: int| 0 <= j < p - 1 implies #[trigger] rest[j].0.idx < e.0.idx by {
            assert(rest[j] == buf[j + 1]);
        }
        assert forall|j: int| p - 1 <= j < rest.len() implies #[trigger] rest[j].0.idx > e.0.idx by {
            assert(rest[j] == buf[j + 1]);
        }
        assert forall|i: int, j: int| 0 <= i < j < rest.len() implies #[trigger] rest[i].0.idx
            < #[trigger] rest[j].0.idx by {
            assert(rest[i] == buf[i + 1]);
            assert(rest[j] == buf[j + 1]);
        }
        lemma_insert_sorted_at(rest, e, p - 1);
        assert(insert_sorted(buf, e) =~= buf.insert(p, e));
    }
    let nb = buf.insert(p, e);
    assert forall|i: int, j: int| 0 <= i < j < nb.len() implies #[trigger] nb[i].0.idx
        < #[trigger] nb[j].0.idx by {
        if i < p && j < p {
        } else if i < p && j == p {
        } else if i < p {
            assert(nb[j] == buf[j - 1]);
        } else if i == p {
            assert(nb[j] == buf[j - 1]);
        } else {
            assert(nb[i] == buf[i - 1]);
            assert(nb[j] == buf[j - 1]);
        }
    }
}

/// Holds, for each bundle that has begun to arrive but is not complete, its blobs
/// sorted by index. Bundles are removed from the buffers when they are complete.
pub struct IncompleteBundleBuffers {
    /// Mapping from bundle id to a sorted list of blobs.
    bundle_buffer_by_id: HashMap<u32, Vec<(BlobHeader, Blob)>>,
}

impl View for IncompleteBundleBuffers {
    type V = Map<u32, Seq<Entry>>;

    closed spec fn view(&self) -> Map<u32, Seq<Entry>> {
        self.bundle_buffer_by_id@.map_values(|v: Vec<(BlobHeader, Blob)>| entries_view(v@))
    }
}

impl IncompleteBundleBuffers {
    /// Every held bundle is well formed.
    pub open spec fn wf(&self) -> bool {
        forall|id: u32| #[trigger] self@.contains_key(id) ==> buffer_wf(id, self@[id])
    }

    /// Buffers that hold nothing.
    pub fn new() -> (r: Self)
        ensures
            r.wf(),
            r@ == Map::<u32, Seq<Entry>>::empty(),
    {
        let r = IncompleteBundleBuffers { bundle_buffer_by_id: HashMap::new() };
        assert(r@ =~= Map::<u32, Seq<Entry>>::empty());
        r
    }

    /// Insert into the buffer of this bundle, keeping the blobs inside it sorted.
    /// Returns an error on duplicate insertion, or if the bundle cannot be decoded.
    pub fn insert(&mut self, blob: Blob) -> (r: Result<Inserted, InsertError>)
        requires
            old(self).wf(),
        ensures
            final(self).wf(),
            final(self)@ == insert_step(old(self)@, blob@).0,
            match insert_step(old(self)@, blob@).1 {
                InsertKind::HeaderUnreadable => r matches Err(InsertError::Header(_)),
                InsertKind::Duplicate => r matches Err(InsertError::DuplicateBlob { idx })
                    && idx == blob_header(blob@).unwrap().idx,
                InsertKind::Incomplete => r matches Ok(Inserted::Incomplete),
                InsertKind::Completed => completion_result(insert_step(old(self)@, blob@).2, r),
            },
    {
        broadcast use vstd::std_specs::hash::group_hash_axioms;

        let header = match read_blob_header(&blob) {
            Ok(h) => h,
            Err(e) => {
                return Err(InsertError::Header(e));
            },
        };
        let bundle_id = header.bundle_id;
        let ghost old_view = self@;
        let ghost buf = buffer_of(old_view, bundle_id);
        let mut blobs = match self.bundle_buffer_by_id.remove(&bundle_id) {
            Some(v) => v,
            None => Vec::new(),
        };
        assert(entries_view(blobs@) =~= buf);
        assert(self@ =~= old_view.remove(bundle_id));
        match find_idx(&blobs, header.idx) {
            Ok(i) => {
                assert(buf[i as int].0.idx == header.idx);
                self.bundle_buffer_by_id.insert(bundle_id, blobs);
                assert(self@ =~= old_view);
                return Err(InsertError::DuplicateBlob { idx: header.idx });
            },
            Err(pos) => {
                let ghost e: Entry = (header, blob@);
                assert(!has_idx(buf, header.idx)) by {
                    if has_idx(buf, header.idx) {
                        let k = choose|k: int| 0 <= k < buf.len() && #[trigger] buf[k].0.idx == header.idx;
                        assert(buf[k] == entry_view(blobs@[k]));
                    }
                }
                proof {
                    lemma_insert_sorted_at(buf, e, pos as int);
                }
                blobs.insert(pos, (header, blob));
                assert(entries_view(blobs@) =~= buf.insert(pos as int, e));
            },
        }
        let ghost nb = entries_view(blobs@);
        assert forall|i: int| 0 <= i < nb.len() implies (#[trigger] nb[i]).0.bundle_id == bundle_id
            && blob_header(nb[i].1) == Some(nb[i].0) by {
            if nb[i] != (header, blob@) {
                assert(exists|k: int| 0 <= k < buf.len() && buf[k] == nb[i]);
            }
        }
        if !is_complete(&blobs) {
            self.bundle_buffer_by_id.insert(bundle_id, blobs);
            assert(self@ =~= old_view.insert(bundle_id, nb));
            return Ok(Inserted::Incomplete);
        }
        assert(self@ =~= old_view.remove(bundle_id));
        match first_undecodable_layout(&blobs) {
            Some(idx) => {
                return Err(InsertError::UndecodableLayout { idx });
            },
            None => {},
        }
        let raw = into_blobs(blobs);
        assert(raw@.map_values(|b: Blob| b@) =~= blobs_of(nb));
        assert forall|i: int| 0 <= i < raw@.len() implies (blob_header(#[trigger] raw@[i]@) matches Some(
            h,
        ) ==> decodable_layout(h)) by {
            assert(raw@.map_values(|b: Blob| b@)[i] == blobs_of(nb)[i]);
            assert(blob_header(nb[i].1) == Some(nb[i].0));
            assert(decodable_layout(nb[i].0));
        }
        let payload = match decode_blobs(&raw) {
            Ok(p) => p,
            Err(e) => {
                return Err(InsertError::BlobDecode(e));
            },
        };
        let blocks = match decode_bundle(&payload) {
            Ok(b) => b,
            Err(e) => {
                return Err(InsertError::BundleDecode(e));
            },
        };
        Ok(Inserted::Complete(BundleV1 { blocks }))
    }
}

impl Default for IncompleteBundleBuffers {
    fn default() -> (r: Self)
        ensures
            r.wf(),
            r@ == Map::<u32, Seq<Entry>>::empty(),
    {
        IncompleteBundleBuffers::new()
    }
}

/// Binary search for a blob index in a buffer sorted by index.
fn find_idx(buf: &Vec<(BlobHeader, Blob)>, idx: u32) -> (r: Result<usize, usize>)
    requires
        sorted_by_idx(entries_view(buf@)),
    ensures
        match r {
            Ok(i) => i < buf.len() && buf@[i as int].0.idx == idx,
            Err(p) => {
                &&& p <= buf.len()
                &&& forall|j: int| 0 <= j < p ==> #[trigger] buf@[j].0.idx < idx
                &&& forall|j: int| p <= j < buf.len() ==> #[trigger] buf@[j].0.idx > idx
            },
        },
{
    let ghost ev = entries_view(buf@);
    let mut lo: usize = 0;
    let mut hi: usize = buf.len();
    while lo < hi
        invariant
            lo <= hi <= buf.len(),
            ev == entries_view(buf@),
            sorted_by_idx(ev),
            forall|j: int| 0 <= j < lo ==> #[trigger] buf@[j].0.idx < idx,
            forall|j: int| hi <= j < buf.len() ==> #[trigger] buf@[j].0.idx > idx,
        decreases hi - lo,
    {
        let mid = lo + (hi - lo) / 2;
        let m = buf[mid].0.idx;
        if m == idx {
            return Ok(mid);
        } else if m < idx {
            assert forall|j: int| 0 <= j < mid + 1 implies #[trigger] buf@[j].0.idx < idx by {
                assert(ev[j].0.idx == buf@[j].0.idx);
                assert(ev[mid as int].0.idx == buf@[mid as int].0.idx);
            }
            lo = mid + 1;
        } else {
            assert forall|j: int| mid <= j < buf.len() implies #[trigger] buf@[j].0.idx > idx by {
                assert(ev[j].0.idx == buf@[j].0.idx);
                assert(ev[mid as int].0.idx == buf@[mid as int].0.idx);
            }
            hi = mid;
        }
    }
    Err(lo)
}

/// The index of the first buffered blob whose layout the blob decoder cannot take
/// apart, if any.
fn first_undecodable_layout(buf: &Vec<(BlobHeader, Blob)>) -> (r: Option<u32>)
    ensures
        match r {
            None => layouts_decodable(entries_view(buf@)),
            Some(idx) => exists|k: int|
                first_undecodable(entries_view(buf@), k) && #[trigger] entries_view(buf@)[k].0.idx == idx,
        },
{
    let ghost ev = entries_view(buf@);
    let mut i: usize = 0;
    while i < buf.len()
        invariant
            i <= buf.len(),
            ev == entries_view(buf@),
            forall|j: int| 0 <= j < i ==> decodable_layout(#[trigger] ev[j].0),
        decreases buf.len() - i,
    {
        let h = buf[i].0;
        assert(ev[i as int] == entry_view(buf@[i as int]));
        if !(h.num_bits == 0 || (h.num_bits >= 89 && h.num_bits % 256 != 1)) {
            assert(first_undecodable(ev, i as int));
            return Some(h.idx);
        }
        i = i + 1;
    }
    None
}

/// Whether the buffered blobs form a complete bundle.
fn is_complete(buf: &Vec<(BlobHeader, Blob)>) -> (c: bool)
    requires
        buf.len() > 0,
    ensures
        c == bundle_complete(entries_view(buf@)),
{
    let ghost ev = entries_view(buf@);
    let n = buf.len();
    if !buf[n - 1].0.is_last {
        assert(ev.last() == entry_view(buf@[n - 1]));
        return false;
    }
    let mut i: usize = 0;
    while i < n
        invariant
            i <= n == buf.len(),
            ev == entries_view(buf@),
            forall|j: int| 0 <= j < i ==> #[trigger] ev[j].0.idx == j,
        decreases n - i,
    {
        if buf[i].0.idx as usize != i {
            assert(ev[i as int] == entry_view(buf@[i as int]));
            assert(ev[i as int].0.idx != i as int);
            return false;
        }
        assert(ev[i as int] == entry_view(buf@[i as int]));
        i = i + 1;
    }
    assert(ev.last() == entry_view(buf@[n - 1]));
    true
}

/// The blobs of a buffer, in buffer order.
fn into_blobs(entries: Vec<(BlobHeader, Blob)>) -> (r: Vec<Blob>)
    ensures
        r@.map_values(|b: Blob| b@) == blobs_of(entries_view(entries@)),
        r@.len() == entries@.len(),
        forall|i: int| 0 <= i < r@.len() ==> (#[trigger] r@[i])@ == entries@[i].1@,
{
    let ghost all = blobs_of(entries_view(entries@));
    let mut rest = entries;
    let mut r: Vec<Blob> = Vec::new();
    while rest.len() > 0
        invariant
            r@.map_values(|b: Blob| b@) + blobs_of(entries_view(rest@)) == all,
        decreases rest.len(),
    {
        let ghost before = rest@;
        let e = rest.remove(0);
        r.push(e.1);
        assert(blobs_of(entries_view(before)) =~= seq![e.1@] + blobs_of(entries_view(rest@)));
        assert(r@.map_values(|b: Blob| b@) =~= before.subrange(0, 0).map_values(|x: (BlobHeader, Blob)| x.1@)
            + r@.map_values(|b: Blob| b@));
    }
    assert(blobs_of(entries_view(rest@)) =~= Seq::<Seq<u8>>::empty());
    assert(r@.map_values(|b: Blob| b@) =~= all);
    assert forall|i: int| 0 <= i < r@.len() implies (#[trigger] r@[i])@ == entries@[i].1@ by {
        assert(r@.map_values(|b: Blob| b@)[i] == all[i]);
        assert(entries_view(entries@)[i] == entry_view(entries@[i]));
    }
    r
}

} // verus!
