//! What the block fetcher asks the GraphQL node for, and how it reads the answers.
use vstd::prelude::*;

use crate::downloader::block_buffer::DaBlock;
use crate::external::compressed_block_height;

verus! {

/// A request for a page of full blocks: the blocks after height `cursor`, `results` of them.
#[derive(Clone, Copy, Debug, PartialEq, Eq)]
pub struct PageRequest {
    pub cursor: u32,
    pub results: i32,
}

/// The page request for the blocks at heights `start..end`: none for an empty range;
/// otherwise the page after `start - 1` (after 0 when `start` is 0), as many blocks as
/// the range holds, that count taken as an `i32`.
pub fn page_request(start: u32, end: u32) -> (r: Option<PageRequest>)
    ensures
        start >= end ==> r is None,
        start < end ==> r == Some(
            PageRequest {
                cursor: if start == 0 { 0u32 } else { (start - 1) as u32 },
                results: (end - start) as i32,
            },
        ),
{
    if start >= end {
        return None;
    }
    let cursor = start.saturating_sub(1);
    let len = end - start;
    Some(PageRequest { cursor, results: #[verifier::truncate] (len as i32) })
}

/// The heights `start..end` in chunks of 40: the `i`-th chunk starts at `start + 40 i`
/// and ends 40 later or at `end`, whichever comes first.
pub open spec fn chunk(start: u32, end: u32, i: int) -> (u32, u32) {
    let s = start + 40 * i;
    (s as u32, (if s + 40 <= end { s + 40 } else { end as int }) as u32)
}

/// How many chunks of 40 the heights `start..end` make.
pub open spec fn chunk_count(start: u32, end: u32) -> int {
    if end <= start {
        0
    } else {
        (end - start + 39) / 40
    }
}

/// The chunks of a non-empty range `start..end` tile it: the first starts at `start`,
/// each starts where the one before ends, the last ends at `end`, every chunk holds
/// at least one and at most 40 heights, and all but the last hold exactly 40.
pub proof fn lemma_chunks_tile(start: u32, end: u32)
    requires
        start < end,
    ensures
        chunk_count(start, end) > 0,
        chunk(start, end, 0).0 == start,
        chunk(start, end, chunk_count(start, end) - 1).1 == end,
        forall|i: int|
            #![trigger chunk(start, end, i)]
            0 <= i < chunk_count(start, end) - 1 ==> chunk(start, end, i).1 == chunk(start, end, i + 1).0
                && chunk(start, end, i).1 == chunk(start, end, i).0 + 40,
        forall|i: int|
            #![trigger chunk(start, end, i)]
            0 <= i < chunk_count(start, end) ==> chunk(start, end, i).0 < chunk(start, end, i).1 <= chunk(
                start,
                end,
                i,
            ).0 + 40,
{
    let n: int = end - start;
    let c = chunk_count(start, end);
    assert(c == (n + 39) / 40);
    assert(40 * (c - 1) < n && n <= 40 * c) by (nonlinear_arith)
        requires
            n > 0,
            c == (n + 39) / 40,
    ;
    assert forall|i: int| 0 <= i < c implies #[trigger] chunk(start, end, i).0 == start + 40 * i && start + 40 * i < end by {
        assert(40 * i <= 40 * (c - 1));
    }
}

/// Splits the heights `start..end` into ranges of at most 40 heights, in order.
pub fn chunk_ranges(start: u32, end: u32) -> (r: Vec<(u32, u32)>)
    ensures
        r@.len() == chunk_count(start, end),
        forall|i: int| 0 <= i < r@.len() ==> #[trigger] r@[i] == chunk(start, end, i),
        start >= end ==> r@.len() == 0,
        start < end ==> r@.len() > 0 && r@[0].0 == start && r@.last().1 == end,
        forall|i: int| #![trigger r@[i]] 0 <= i < r@.len() - 1 ==> r@[i].1 == r@[i + 1].0 && r@[i].1 == r@[i].0 + 40,
        forall|i: int| 0 <= i < r@.len() ==> r@[i].0 < #[trigger] r@[i].1 <= r@[i].0 + 40,
{
    proof {
        if start < end {
            lemma_chunks_tile(start, end);
        }
    }
    let mut r: Vec<(u32, u32)> = Vec::new();
    if end <= start {
        return r;
    }
    let mut s = start;
    while s < end
        invariant
            start <= s <= end,
            s < end ==> s == start + 40 * r@.len(),
            forall|i: int| 0 <= i < r@.len() ==> #[trigger] r@[i] == chunk(start, end, i),
            s < end ==> r@.len() < chunk_count(start, end),
            s == end ==> r@.len() == chunk_count(start, end),
        decreases end - s,
    {
        let len: u32 = if end - s >= 40 { 40 } else { end - s };
        let ghost k = r@.len();
        r.push((s, s + len));
        assert(r@[k as int] == chunk(start, end, k as int));
        s = s + len;
    }
    r
}

/// The ranges in which the syncer fetches full blocks: from the block after the
/// local chain's height up to (not including) the remote chain's height.
pub fn graphql_sync_ranges(local_height: u32, remote_height: u32) -> (r: Vec<(u32, u32)>)
    ensures
        ({
            let start = if local_height == u32::MAX { u32::MAX } else { (local_height + 1) as u32 };
            &&& r@.len() == chunk_count(start, remote_height)
            &&& forall|i: int| 0 <= i < r@.len() ==> #[trigger] r@[i] == chunk(start, remote_height, i)
        }),
        local_height.saturating_add(1) >= remote_height ==> r@.len() == 0,
        local_height.saturating_add(1) < remote_height ==> r@.len() > 0 && r@[0].0 == local_height.saturating_add(1) && r@.last().1 == remote_height,
        forall|i: int| #![trigger r@[i]] 0 <= i < r@.len() - 1 ==> r@[i].1 == r@[i + 1].0 && r@[i].1 == r@[i].0 + 40,
        forall|i: int| 0 <= i < r@.len() ==> r@[i].0 < #[trigger] r@[i].1 <= r@[i].0 + 40,
{
    chunk_ranges(local_height.saturating_add(1), remote_height)
}

/// The blocks that were found, in order.
pub open spec fn found(fetched: Seq<Option<Vec<u8>>>) -> Seq<Seq<u8>>
    decreases fetched.len(),
{
    if fetched.len() == 0 {
        Seq::empty()
    } else {
        match fetched.last() {
            Some(b) => found(fetched.drop_last()).push(b@),
            None => found(fetched.drop_last()),
        }
    }
}

/// How many of the fetched heights had a block.
pub open spec fn some_count(fetched: Seq<Option<Vec<u8>>>) -> nat
    decreases fetched.len(),
{
    if fetched.len() == 0 {
        0
    } else {
        some_count(fetched.drop_last()) + if fetched.last() is Some {
            1nat
        } else {
            0nat
        }
    }
}

proof fn lemma_some_count_prefix(fetched: Seq<Option<Vec<u8>>>, k: int)
    requires
        0 <= k < fetched.len(),
        fetched[k] is Some,
    ensures
        some_count(fetched.take(k)) < some_count(fetched),
    decreases fetched.len(),
{
    if k == fetched.len() - 1 {
        assert(fetched.take(k) =~= fetched.drop_last());
    } else {
        assert(fetched.drop_last().take(k) =~= fetched.take(k));
        lemma_some_count_prefix(fetched.drop_last(), k);
    }
}

/// Every block that was found is kept, in order: there are as many as heights that
/// had a block, and the block of the `i`-th height comes after those of the heights
/// before it that had one.
pub proof fn lemma_every_found_block_kept(fetched: Seq<Option<Vec<u8>>>)
    ensures
        found(fetched).len() == some_count(fetched),
        forall|i: int|
            #![trigger fetched[i]]
            0 <= i < fetched.len() && fetched[i] is Some ==> found(fetched)[some_count(fetched.take(i)) as int]
                == fetched[i]->0@,
    decreases fetched.len(),
{
    if fetched.len() > 0 {
        let init = fetched.drop_last();
        lemma_every_found_block_kept(init);
        assert forall|i: int|
            #![trigger fetched[i]]
            0 <= i < fetched.len() && fetched[i] is Some implies found(fetched)[some_count(fetched.take(i)) as int]
                == fetched[i]->0@ by {
            if i == fetched.len() - 1 {
                assert(fetched.take(i) =~= init);
            } else {
                assert(init.take(i) =~= fetched.take(i));
                assert(init[i] == fetched[i]);
                lemma_some_count_prefix(init, i);
            }
        }
    }
}

/// Decodes the compressed blocks that were found, skipping the heights that had none;
/// fails on the first block that does not decode.
pub fn decode_compressed_blocks(fetched: Vec<Option<Vec<u8>>>) -> (r: Result<Vec<DaBlock>, postcard::Error>)
    ensures
        match r {
            Ok(v) => {
                &&& v@.len() == found(fetched@).len()
                &&& v@.len() == some_count(fetched@)
                &&& forall|i: int|
                    #![trigger fetched@[i]]
                    0 <= i < fetched@.len() && fetched@[i] is Some ==> compressed_block_height(
                        fetched@[i]->0@,
                    ) == Some(v@[some_count(fetched@.take(i)) as int].spec_height())
                &&& forall|i: int|
                    0 <= i < v@.len() ==> compressed_block_height(found(fetched@)[i]) == Some(
                        #[trigger] v@[i].spec_height(),
                    )
            },
            Err(_) => exists|i: int|
                0 <= i < found(fetched@).len() && (#[trigger] compressed_block_height(found(fetched@)[i]))
                    is None,
        },
{
    let mut out: Vec<DaBlock> = Vec::new();
    let mut i: usize = 0;
    while i < fetched.len()
        invariant
            i <= fetched.len(),
            out@.len() == found(fetched@.take(i as int)).len(),
            forall|k: int|
                0 <= k < out@.len() ==> compressed_block_height(found(fetched@.take(i as int))[k])
                    == Some(#[trigger] out@[k].spec_height()),
        decreases fetched.len() - i,
    {
        let ghost pre = fetched@.take(i as int);
        let ghost cur = fetched@.take(i + 1);
        assert(cur.drop_last() =~= pre);
        match &fetched[i] {
            Some(bytes) => {
                assert(found(cur) == found(pre).push(bytes@));
                match DaBlock::decode(bytes.as_slice()) {
                    Ok(b) => {
                        out.push(b);
                    },
                    Err(e) => {
                        proof {
                            lemma_found_prefix(fetched@, i + 1);
                            assert(found(fetched@)[found(pre).len() as int] == bytes@);
                        }
                        return Err(e);
                    },
                }
            },
            None => {
                assert(found(cur) == found(pre));
            },
        }
        i = i + 1;
    }
    assert(fetched@.take(fetched@.len() as int) =~= fetched@);
    proof {
        lemma_every_found_block_kept(fetched@);
        assert forall|i: int|
            #![trigger fetched@[i]]
            0 <= i < fetched@.len() && fetched@[i] is Some implies compressed_block_height(fetched@[i]->0@) == Some(
                out@[some_count(fetched@.take(i)) as int].spec_height(),
            ) by {
            lemma_some_count_prefix(fetched@, i);
        }
    }
    Ok(out)
}

/// What was found among a prefix of the fetched blocks comes first among all.
proof fn lemma_found_prefix(fetched: Seq<Option<Vec<u8>>>, k: int)
    requires
        0 <= k <= fetched.len(),
    ensures
        found(fetched.take(k)).len() <= found(fetched).len(),
        forall|j: int| 0 <= j < found(fetched.take(k)).len() ==> #[trigger] found(fetched)[j] == found(
            fetched.take(k),
        )[j],
    decreases fetched.len() - k,
{
    if k == fetched.len() {
        assert(fetched.take(k) =~= fetched);
    } else {
        assert(fetched.drop_last().take(k) =~= fetched.take(k));
        lemma_found_prefix(fetched.drop_last(), k);
    }
}

} // verus!
