//! What the bundle buffers promise over a whole bundle: however its blobs arrive,
//! the bundle stays incomplete until its last missing blob arrives, and then it is
//! handed over with its blobs in index order and leaves the buffers.
use vstd::prelude::*;

use crate::downloader::bundle_buffer::{
    buffer_of, bundle_complete, has_idx, insert_sorted, insert_step, sorted_by_idx, BlobHeader,
    Entry, InsertKind,
};
use crate::external::blob_header;

verus! {

/// The header of a blob that is known to have one.
pub open spec fn part_header(b: Seq<u8>) -> BlobHeader {
    blob_header(b).unwrap()
}

/// A blob together with its header, as the buffers hold it.
pub open spec fn part_entry(b: Seq<u8>) -> Entry {
    (part_header(b), b)
}

/// `parts` are the blobs of bundle `id`, in the order they arrive: each has a header
/// of that bundle, their indexes are distinct and below their number, and exactly
/// the one with the highest index is marked as the last.
pub open spec fn bundle_parts(parts: Seq<Seq<u8>>, id: u32) -> bool {
    &&& parts.len() > 0
    &&& forall|i: int|
        0 <= i < parts.len() ==> {
            &&& blob_header(#[trigger] parts[i]) is Some
            &&& part_header(parts[i]).bundle_id == id
            &&& part_header(parts[i]).idx < parts.len()
            &&& (part_header(parts[i]).is_last <==> part_header(parts[i]).idx == parts.len() - 1)
        }
    &&& forall|i: int, j: int|
        0 <= i < j < parts.len() ==> part_header(#[trigger] parts[i]).idx != part_header(
            #[trigger] parts[j],
        ).idx
}

/// The buffers after inserting `blobs` one after the other.
pub open spec fn insert_all(m: Map<u32, Seq<Entry>>, blobs: Seq<Seq<u8>>) -> Map<u32, Seq<Entry>>
    decreases blobs.len(),
{
    if blobs.len() == 0 {
        m
    } else {
        insert_step(insert_all(m, blobs.drop_last()), blobs.last()).0
    }
}

/// The blob of `parts` whose index is `j`.
pub open spec fn part_with_idx(parts: Seq<Seq<u8>>, j: int) -> Seq<u8> {
    parts[choose|i: int| 0 <= i < parts.len() && part_header(parts[i]).idx == j]
}

/// The blobs of `parts` in index order, with their headers.
pub open spec fn parts_in_order(parts: Seq<Seq<u8>>) -> Seq<Entry> {
    Seq::new(parts.len(), |j: int| part_entry(part_with_idx(parts, j)))
}

/// The first `k` arrivals, with their headers.
pub open spec fn arrived(parts: Seq<Seq<u8>>, k: int) -> Seq<Entry> {
    parts.take(k).map_values(|b: Seq<u8>| part_entry(b))
}

/// `s` holds exactly the first `k` arrivals, sorted by index.
pub open spec fn holds_arrivals(s: Seq<Entry>, parts: Seq<Seq<u8>>, k: int) -> bool {
    &&& s.len() == k
    &&& sorted_by_idx(s)
    &&& forall|x: Entry| #[trigger] s.contains(x) <==> arrived(parts, k).contains(x)
}

/// Inserting an entry with a new index into a sorted buffer keeps it sorted and adds
/// exactly that entry.
pub proof fn lemma_insert_sorted_contents(buf: Seq<Entry>, e: Entry)
    requires
        sorted_by_idx(buf),
        !has_idx(buf, e.0.idx),
    ensures
        sorted_by_idx(insert_sorted(buf, e)),
        insert_sorted(buf, e).len() == buf.len() + 1,
        forall|x: Entry| #[trigger] insert_sorted(buf, e).contains(x) <==> (x == e || buf.contains(x)),
    decreases buf.len(),
{
    let r = insert_sorted(buf, e);
    if buf.len() == 0 {
        assert(r =~= seq![e]);
        assert forall|x: Entry| r.contains(x) <==> (x == e || buf.contains(x)) by {
            if r.contains(x) {
                let i = choose|i: int| 0 <= i < r.len() && r[i] == x;
                assert(i == 0);
            }
            if x == e {
                assert(r[0] == x);
            }
        }
    } else if buf[0].0.idx < e.0.idx {
        let rest = buf.drop_first();
        assert forall|i: int, j: int| 0 <= i < j < rest.len() implies #[trigger] rest[i].0.idx
            < #[trigger] rest[j].0.idx by {
            assert(rest[i] == buf[i + 1]);
            assert(rest[j] == buf[j + 1]);
        }
        assert(!has_idx(rest, e.0.idx)) by {
            if has_idx(rest, e.0.idx) {
                let k = choose|k: int| 0 <= k < rest.len() && #[trigger] rest[k].0.idx == e.0.idx;
                assert(rest[k] == buf[k + 1]);
            }
        }
        lemma_insert_sorted_contents(rest, e);
        let t = insert_sorted(rest, e);
        assert(r =~= seq![buf[0]] + t);
        assert forall|x: Entry| r.contains(x) <==> (x == e || buf.contains(x)) by {
            if r.contains(x) {
                let i = choose|i: int| 0 <= i < r.len() && r[i] == x;
                if i == 0 {
                    assert(buf[0] == x);
                } else {
                    assert(t[i - 1] == x);
                    assert(t.contains(x));
                    if x != e {
                        assert(rest.contains(x));
                        let k = choose|k: int| 0 <= k < rest.len() && rest[k] == x;
                        assert(buf[k + 1] == x);
                    }
                }
            }
            if x == e {
                assert(t.contains(x));
                let i = choose|i: int| 0 <= i < t.len() && t[i] == x;
                assert(r[i + 1] == x);
            } else if buf.contains(x) {
                let k = choose|k: int| 0 <= k < buf.len() && buf[k] == x;
                if k == 0 {
                    assert(r[0] == x);
                } else {
                    assert(rest[k - 1] == x);
                    assert(rest.contains(x));
                    assert(t.contains(x));
                    let i = choose|i: int| 0 <= i < t.len() && t[i] == x;
                    assert(r[i + 1] == x);
                }
            }
        }
        assert forall|i: int, j: int| 0 <= i < j < r.len() implies #[trigger] r[i].0.idx
            < #[trigger] r[j].0.idx by {
            if i == 0 {
                assert(r[j] == t[j - 1]);
                assert(t.contains(t[j - 1]));
                if t[j - 1] != e {
                    assert(rest.contains(t[j - 1]));
                    let k = choose|k: int| 0 <= k < rest.len() && rest[k] == t[j - 1];
                    assert(buf[k + 1] == t[j - 1]);
                }
            } else {
                assert(r[i] == t[i - 1]);
                assert(r[j] == t[j - 1]);
            }
        }
    } else {
        assert(buf[0].0.idx != e.0.idx);
        assert(r =~= seq![e] + buf);
        assert forall|x: Entry| r.contains(x) <==> (x == e || buf.contains(x)) by {
            if r.contains(x) {
                let i = choose|i: int| 0 <= i < r.len() && r[i] == x;
                if i > 0 {
                    assert(buf[i - 1] == x);
                }
            }
            if x == e {
                assert(r[0] == x);
            } else if buf.contains(x) {
                let k = choose|k: int| 0 <= k < buf.len() && buf[k] == x;
                assert(r[k + 1] == x);
            }
        }
        assert forall|i: int, j: int| 0 <= i < j < r.len() implies #[trigger] r[i].0.idx
            < #[trigger] r[j].0.idx by {
            if i == 0 {
                assert(r[j] == buf[j - 1]);
                if j - 1 > 0 {
                    assert(buf[0].0.idx < buf[j - 1].0.idx);
                }
            } else {
                assert(r[i] == buf[i - 1]);
                assert(r[j] == buf[j - 1]);
            }
        }
    }
}

/// A strictly increasing run of `n` indexes, all below `n`, counts 0, 1, ..., n - 1.
pub proof fn lemma_sorted_below_len_is_identity(s: Seq<Entry>)
    requires
        sorted_by_idx(s),
        forall|i: int| 0 <= i < s.len() ==> #[trigger] s[i].0.idx < s.len(),
    ensures
        forall|i: int| 0 <= i < s.len() ==> #[trigger] s[i].0.idx == i,
{
    assert forall|i: int| 0 <= i < s.len() implies #[trigger] s[i].0.idx == i by {
        lemma_idx_at_least(s, i);
        lemma_idx_at_most(s, i);
    }
}

proof fn lemma_idx_at_least(s: Seq<Entry>, i: int)
    requires
        sorted_by_idx(s),
        0 <= i < s.len(),
    ensures
        s[i].0.idx >= i,
    decreases i,
{
    if i > 0 {
        lemma_idx_at_least(s, i - 1);
        assert(s[i - 1].0.idx < s[i].0.idx);
    }
}

proof fn lemma_idx_at_most(s: Seq<Entry>, i: int)
    requires
        sorted_by_idx(s),
        forall|k: int| 0 <= k < s.len() ==> #[trigger] s[k].0.idx < s.len(),
        0 <= i < s.len(),
    ensures
        s[i].0.idx <= i,
    decreases s.len() - i,
{
    if i < s.len() - 1 {
        lemma_idx_at_most(s, i + 1);
        assert(s[i].0.idx < s[i + 1].0.idx);
    }
}

/// The arrivals that precede the `k`-th are buffered, sorted, under the bundle's id,
/// and nothing else changed.
pub proof fn lemma_arrivals_buffered(m: Map<u32, Seq<Entry>>, parts: Seq<Seq<u8>>, id: u32, k: int)
    requires
        bundle_parts(parts, id),
        !m.contains_key(id),
        0 <= k < parts.len(),
    ensures
        insert_all(m, parts.take(k)).remove(id) == m,
        insert_all(m, parts.take(k)).contains_key(id) <==> k > 0,
        holds_arrivals(buffer_of(insert_all(m, parts.take(k)), id), parts, k),
    decreases k,
{
    if k == 0 {
        assert(parts.take(0) =~= Seq::<Seq<u8>>::empty());
        assert(m.remove(id) =~= m);
        assert(buffer_of(m, id) =~= Seq::<Entry>::empty());
        assert(arrived(parts, 0) =~= Seq::<Entry>::empty());
    } else {
        lemma_arrivals_buffered(m, parts, id, k - 1);
        assert(parts.take(k).drop_last() =~= parts.take(k - 1));
        assert(parts.take(k).last() == parts[k - 1]);
        let mk = insert_all(m, parts.take(k - 1));
        lemma_step(mk, m, parts, id, k - 1);
    }
}

/// One more arrival: the `k`-th blob joins the bundle's buffer; the bundle completes
/// exactly when it was the last one missing.
proof fn lemma_step(mk: Map<u32, Seq<Entry>>, m: Map<u32, Seq<Entry>>, parts: Seq<Seq<u8>>, id: u32, k: int)
    requires
        bundle_parts(parts, id),
        0 <= k < parts.len(),
        mk.remove(id) == m,
        mk.contains_key(id) <==> k > 0,
        holds_arrivals(buffer_of(mk, id), parts, k),
    ensures
        ({
            let s = insert_step(mk, parts[k]);
            let nb = insert_sorted(buffer_of(mk, id), part_entry(parts[k]));
            &&& holds_arrivals(nb, parts, k + 1)
            &&& k + 1 < parts.len() ==> s.1 == InsertKind::Incomplete && s.0 == mk.insert(id, nb)
            &&& k + 1 == parts.len() ==> s.1 == InsertKind::Completed && s.2 == nb && s.0 == m
        }),
        k + 1 < parts.len() ==> insert_step(mk, parts[k]).0.remove(id) == m,
        k + 1 < parts.len() ==> insert_step(mk, parts[k]).0.contains_key(id),
        k + 1 < parts.len() ==> buffer_of(insert_step(mk, parts[k]).0, id) == insert_sorted(
            buffer_of(mk, id),
            part_entry(parts[k]),
        ),
{
    let buf = buffer_of(mk, id);
    let e = part_entry(parts[k]);
    let h = part_header(parts[k]);
    assert(blob_header(parts[k]) is Some);
    assert(arrived(parts, k + 1) =~= arrived(parts, k).push(e));
    assert(!has_idx(buf, h.idx)) by {
        if has_idx(buf, h.idx) {
            let j = choose|j: int| 0 <= j < buf.len() && #[trigger] buf[j].0.idx == h.idx;
            assert(buf.contains(buf[j]));
            assert(arrived(parts, k).contains(buf[j]));
            let i = choose|i: int| 0 <= i < arrived(parts, k).len() && #[trigger] arrived(parts, k)[i] == buf[j];
            assert(arrived(parts, k)[i] == part_entry(parts[i]));
            assert(part_header(parts[i]).idx != part_header(parts[k]).idx);
        }
    }
    lemma_insert_sorted_contents(buf, e);
    let nb = insert_sorted(buf, e);
    assert forall|x: Entry| nb.contains(x) <==> arrived(parts, k + 1).contains(x) by {
        if arrived(parts, k + 1).contains(x) {
            let i = choose|i: int| 0 <= i < arrived(parts, k + 1).len() && #[trigger] arrived(parts, k + 1)[i] == x;
            if i < k {
                assert(arrived(parts, k)[i] == x);
                assert(arrived(parts, k).contains(x));
            }
        }
        if arrived(parts, k).contains(x) {
            let i = choose|i: int| 0 <= i < arrived(parts, k).len() && #[trigger] arrived(parts, k)[i] == x;
            assert(arrived(parts, k + 1)[i] == x);
        }
        if x == e {
            assert(arrived(parts, k + 1)[k] == x);
        }
    }
    // every buffered entry is one of the bundle's parts
    assert forall|j: int| 0 <= j < nb.len() implies exists|i: int|
        0 <= i < parts.len() && #[trigger] nb[j] == part_entry(parts[i]) by {
        assert(nb.contains(nb[j]));
        assert(arrived(parts, k + 1).contains(nb[j]));
        let i = choose|i: int| 0 <= i < arrived(parts, k + 1).len() && #[trigger] arrived(parts, k + 1)[i] == nb[j];
        assert(arrived(parts, k + 1)[i] == part_entry(parts[i]));
    }
    let n = parts.len();
    if k + 1 < n {
        assert(!bundle_complete(nb)) by {
            if bundle_complete(nb) {
                let last = nb[k];
                assert(last.0.idx == k);
                let i = choose|i: int| 0 <= i < parts.len() && #[trigger] nb[k] == part_entry(parts[i]);
                assert(part_header(parts[i]).is_last);
            }
        }
        assert(insert_step(mk, parts[k]).0 == mk.insert(id, nb));
        assert(mk.insert(id, nb).remove(id) =~= m);
    } else {
        assert forall|j: int| 0 <= j < nb.len() implies #[trigger] nb[j].0.idx < nb.len() by {
            let i = choose|i: int| 0 <= i < parts.len() && #[trigger] nb[j] == part_entry(parts[i]);
        }
        lemma_sorted_below_len_is_identity(nb);
        assert(bundle_complete(nb)) by {
            let i = choose|i: int| 0 <= i < parts.len() && #[trigger] nb[k] == part_entry(parts[i]);
            assert(nb[k].0.idx == k);
        }
        assert(mk.remove(id) == m);
    }
}

/// Inserting a blob changes the buffer of its own bundle only: the buffers of every
/// other bundle stay as they were.
pub proof fn lemma_insert_leaves_other_bundles(m: Map<u32, Seq<Entry>>, blob: Seq<u8>, id: u32)
    requires
        blob_header(blob) matches Some(h) ==> h.bundle_id != id,
    ensures
        insert_step(m, blob).0.contains_key(id) == m.contains_key(id),
        m.contains_key(id) ==> insert_step(m, blob).0[id] == m[id],
{
}

/// However the blobs of a bundle arrive, each insertion before the last reports the
/// bundle incomplete; the last one completes it, hands over its blobs in index order,
/// and leaves the other bundles' buffers as they were.
pub proof fn lemma_bundle_completes_on_its_last_part(
    m: Map<u32, Seq<Entry>>,
    parts: Seq<Seq<u8>>,
    id: u32,
    k: int,
)
    requires
        bundle_parts(parts, id),
        !m.contains_key(id),
        0 <= k < parts.len(),
    ensures
        k < parts.len() - 1 ==> insert_step(insert_all(m, parts.take(k)), parts[k]).1
            == InsertKind::Incomplete,
        k == parts.len() - 1 ==> insert_step(insert_all(m, parts.take(k)), parts[k]).1
            == InsertKind::Completed,
        k == parts.len() - 1 ==> insert_step(insert_all(m, parts.take(k)), parts[k]).2
            == parts_in_order(parts),
        k == parts.len() - 1 ==> insert_step(insert_all(m, parts.take(k)), parts[k]).0 == m,
{
    lemma_arrivals_buffered(m, parts, id, k);
    let mk = insert_all(m, parts.take(k));
    lemma_step(mk, m, parts, id, k);
    if k == parts.len() - 1 {
        let nb = insert_sorted(buffer_of(mk, id), part_entry(parts[k]));
        let n = parts.len();
        assert forall|j: int| 0 <= j < nb.len() implies #[trigger] nb[j].0.idx < nb.len() by {
            assert(nb.contains(nb[j]));
            assert(arrived(parts, k + 1).contains(nb[j]));
            let i = choose|i: int| 0 <= i < arrived(parts, k + 1).len() && #[trigger] arrived(parts, k + 1)[i] == nb[j];
            assert(arrived(parts, k + 1)[i] == part_entry(parts[i]));
        }
        lemma_sorted_below_len_is_identity(nb);
        assert forall|j: int| 0 <= j < n implies #[trigger] nb[j] == part_entry(part_with_idx(parts, j)) by {
            assert(nb.contains(nb[j]));
            assert(arrived(parts, k + 1).contains(nb[j]));
            let i = choose|i: int| 0 <= i < arrived(parts, k + 1).len() && #[trigger] arrived(parts, k + 1)[i] == nb[j];
            assert(arrived(parts, k + 1)[i] == part_entry(parts[i]));
            assert(nb[j].0.idx == j);
            assert(part_header(parts[i]).idx == j);
            let c = choose|c: int| 0 <= c < parts.len() && part_header(parts[c]).idx == j;
            if c != i {
                if c < i {
                    assert(part_header(parts[c]).idx != part_header(parts[i]).idx);
                } else {
                    assert(part_header(parts[i]).idx != part_header(parts[c]).idx);
                }
            }
        }
        assert(nb =~= parts_in_order(parts));
    }
}

/// The arrivals that belong to bundle `id`, in the order they arrive.
pub open spec fn own_parts(arrivals: Seq<Seq<u8>>, id: u32) -> Seq<Seq<u8>>
    decreases arrivals.len(),
{
    if arrivals.len() == 0 {
        Seq::empty()
    } else if blob_header(arrivals.last()) matches Some(h) && h.bundle_id == id {
        own_parts(arrivals.drop_last(), id).push(arrivals.last())
    } else {
        own_parts(arrivals.drop_last(), id)
    }
}

/// Two states of the buffers agree on bundle `id`.
pub open spec fn same_at(a: Map<u32, Seq<Entry>>, b: Map<u32, Seq<Entry>>, id: u32) -> bool {
    &&& a.contains_key(id) == b.contains_key(id)
    &&& buffer_of(a, id) == buffer_of(b, id)
}

/// A blob of another bundle, or one without a readable header, leaves bundle `id` as it was.
proof fn lemma_other_blob_keeps(x: Map<u32, Seq<Entry>>, b: Seq<u8>, id: u32)
    requires
        !(blob_header(b) matches Some(h) && h.bundle_id == id),
    ensures
        same_at(insert_step(x, b).0, x, id),
{
    lemma_insert_leaves_other_bundles(x, b, id);
}

/// What inserting a blob does, and does to its own bundle, depends on nothing but that
/// bundle's buffer.
proof fn lemma_own_blob_local(x: Map<u32, Seq<Entry>>, y: Map<u32, Seq<Entry>>, b: Seq<u8>)
    requires
        blob_header(b) is Some,
        same_at(x, y, part_header(b).bundle_id),
    ensures
        insert_step(x, b).1 == insert_step(y, b).1,
        insert_step(x, b).2 == insert_step(y, b).2,
        same_at(insert_step(x, b).0, insert_step(y, b).0, part_header(b).bundle_id),
{
}

/// After any run of arrivals, bundle `id` stands as if only its own blobs had arrived.
proof fn lemma_only_own_parts_matter(m: Map<u32, Seq<Entry>>, arrivals: Seq<Seq<u8>>, id: u32)
    ensures
        same_at(insert_all(m, arrivals), insert_all(m, own_parts(arrivals, id)), id),
    decreases arrivals.len(),
{
    if arrivals.len() > 0 {
        let init = arrivals.drop_last();
        let b = arrivals.last();
        lemma_only_own_parts_matter(m, init, id);
        if blob_header(b) matches Some(h) && h.bundle_id == id {
            let own = own_parts(arrivals, id);
            assert(own.drop_last() =~= own_parts(init, id));
            lemma_own_blob_local(insert_all(m, init), insert_all(m, own_parts(init, id)), b);
        } else {
            lemma_other_blob_keeps(insert_all(m, init), b, id);
        }
    }
}

/// The own blobs among the first `k` arrivals are the first of all the own blobs.
proof fn lemma_own_parts_prefix(arrivals: Seq<Seq<u8>>, k: int, id: u32)
    requires
        0 <= k <= arrivals.len(),
    ensures
        own_parts(arrivals.take(k), id).len() <= own_parts(arrivals, id).len(),
        own_parts(arrivals, id).take(own_parts(arrivals.take(k), id).len() as int) == own_parts(
            arrivals.take(k),
            id,
        ),
    decreases arrivals.len() - k,
{
    let own = own_parts(arrivals, id);
    if k == arrivals.len() {
        assert(arrivals.take(k) =~= arrivals);
        assert(own.take(own.len() as int) =~= own);
    } else {
        let init = arrivals.drop_last();
        assert(init.take(k) =~= arrivals.take(k));
        lemma_own_parts_prefix(init, k, id);
        let c = own_parts(arrivals.take(k), id).len() as int;
        let before = own_parts(init, id);
        if blob_header(arrivals.last()) matches Some(h) && h.bundle_id == id {
            assert(own == before.push(arrivals.last()));
            assert(own.take(c) =~= before.take(c));
        }
    }
}

/// However the blobs of several bundles, each with an id of its own, are interleaved
/// on their way into buffers that hold none of those bundles, each insertion reports
/// its bundle incomplete until the last missing blob of that bundle arrives; that one
/// completes the bundle and hands over its blobs in index order.
pub proof fn lemma_interleaved_bundles_complete_on_their_last_parts(
    m: Map<u32, Seq<Entry>>,
    arrivals: Seq<Seq<u8>>,
    k: int,
)
    requires
        0 <= k < arrivals.len(),
        forall|i: int| 0 <= i < arrivals.len() ==> blob_header(#[trigger] arrivals[i]) is Some,
        forall|i: int|
            0 <= i < arrivals.len() ==> bundle_parts(
                own_parts(arrivals, part_header(#[trigger] arrivals[i]).bundle_id),
                part_header(arrivals[i]).bundle_id,
            ),
        forall|i: int| 0 <= i < arrivals.len() ==> !m.contains_key(part_header(#[trigger] arrivals[i]).bundle_id),
    ensures
        ({
            let id = part_header(arrivals[k]).bundle_id;
            let c = own_parts(arrivals.take(k), id).len();
            let n = own_parts(arrivals, id).len();
            let s = insert_step(insert_all(m, arrivals.take(k)), arrivals[k]);
            &&& c < n
            &&& c + 1 < n ==> s.1 == InsertKind::Incomplete
            &&& c + 1 == n ==> s.1 == InsertKind::Completed && s.2 == parts_in_order(own_parts(arrivals, id))
        }),
{
    let id = part_header(arrivals[k]).bundle_id;
    let own = own_parts(arrivals, id);
    let mine = own_parts(arrivals.take(k), id);
    let c = mine.len() as int;
    assert(blob_header(arrivals[k]) is Some);
    assert(bundle_parts(own, id));
    assert(!m.contains_key(id));
    assert(arrivals.take(k + 1).drop_last() =~= arrivals.take(k));
    assert(arrivals.take(k + 1).last() == arrivals[k]);
    assert(own_parts(arrivals.take(k + 1), id) == mine.push(arrivals[k]));
    lemma_own_parts_prefix(arrivals, k + 1, id);
    assert(own.take(c + 1) == mine.push(arrivals[k]));
    assert(own[c] == own.take(c + 1)[c]);
    assert(own.take(c) =~= mine) by {
        assert(own.take(c) =~= own.take(c + 1).drop_last());
    }
    lemma_only_own_parts_matter(m, arrivals.take(k), id);
    lemma_own_blob_local(insert_all(m, arrivals.take(k)), insert_all(m, own.take(c)), arrivals[k]);
    lemma_bundle_completes_on_its_last_part(m, own, id, c);
}

} // verus!
