//! What reads of a run answer, over a source that hands out the bytes that were written.
use crate::commit::EntryView;
use crate::order::below;
use crate::run::{
    block_read, blocks_read, drained, evict, fetched, joined, meta_read, Answer, CacheView,
    CachedView, RangeSource, Read,
};
use crate::run_format::{block_end, encode, index_from, run_bytes, RunError, TRAILER_LEN};
use crate::run_laws::{
    block_entries, block_start, built_meta, fits, lemma_block_of_built, lemma_blocks_cover,
    lemma_meta_of_built, lemma_offsets_ascend, lemma_run_len,
};
use crate::run_read::{bytes_result, read_meta_bytes, read_trailer, MetaView};
use vstd::prelude::*;

verus! {

/// `src` answers every range inside `bytes` with the bytes there, and knows their number.
pub open spec fn faithful<S: RangeSource>(src: &S, bytes: Seq<u8>) -> bool {
    &&& forall|off: u64, len: u64, r: Result<Vec<u8>, RunError>| #[trigger]
        call_ensures(S::range, (src, off, len), r) && off + len <= bytes.len() ==> bytes_result(r)
            == Ok::<Seq<u8>, RunError>(bytes.subrange(off as int, off + len))
    &&& forall|n: u64| #[trigger] call_ensures(S::size, (src,), n) ==> n == bytes.len()
}

/// A byte slice is a faithful source of what it holds.
pub proof fn lemma_slice_faithful(s: &[u8])
    ensures
        faithful(&s, s@),
{
    assert forall|off: u64, len: u64, r: Result<Vec<u8>, RunError>| #[trigger]
        call_ensures(<&[u8] as RangeSource>::range, (&s, off, len), r) && off + len
            <= s@.len() implies bytes_result(r) == Ok::<Seq<u8>, RunError>(
        s@.subrange(off as int, off + len),
    ) by {}
}

/// Entries stand in ascending order of their keys, no key twice.
pub open spec fn sorted(es: Seq<EntryView>) -> bool {
    forall|i: int, j: int|
        0 <= i < j < es.len() ==> below((#[trigger] es[i]).0, (#[trigger] es[j]).0)
}

/// Every block held is the one that was written at its offset.
pub open spec fn honest(c: CacheView, es: Seq<EntryView>) -> bool {
    forall|i: int|
        0 <= i < c.blocks.len() ==> exists|k: int|
            0 <= k < index_from(es, 0, 0).len() && (#[trigger] index_from(es, 0, 0)[k]).1 == (
            #[trigger] c.blocks[i]).0 && c.blocks[i].1 == encode(block_entries(es, k))
}

/// Opening a run that was built from `es` gives the metadata it was built with.
pub proof fn lemma_open_built<S: RangeSource>(
    src: &S,
    es: Seq<EntryView>,
    horizon: u64,
    r: Result<MetaView, RunError>,
)
    requires
        fits(es),
        faithful(src, run_bytes(es, horizon)),
        meta_read(src, r),
    ensures
        r == Ok::<MetaView, RunError>(built_meta(es, horizon)),
{
    lemma_meta_of_built(es, horizon);
}

/// A run opened from a copy of its bytes is the run that its source gives: the same filter, index
/// and counts, or the same refusal.
pub proof fn lemma_copy_opens_alike<S: RangeSource>(
    src: &S,
    bytes: &[u8],
    r: Result<MetaView, RunError>,
    copy: Result<MetaView, RunError>,
)
    requires
        faithful(src, bytes@),
        meta_read(src, r),
        meta_read(&bytes, copy),
    ensures
        r == copy,
{
    lemma_slice_faithful(bytes);
    lemma_meta_of(src, bytes@, r);
    lemma_meta_of(&bytes, bytes@, copy);
}

/// The metadata that the bytes of a run hold.
pub open spec fn meta_of(bytes: Seq<u8>) -> Result<MetaView, RunError> {
    if bytes.len() < TRAILER_LEN {
        Err(RunError::TooSmall)
    } else {
        match read_trailer(bytes.len() as u64, bytes.skip(bytes.len() - TRAILER_LEN)) {
            Err(e) => Err(e),
            Ok(f) => read_meta_bytes(
                f,
                bytes.subrange(f.bloom_off as int, f.bloom_off + f.bloom_len + f.index_len),
            ),
        }
    }
}

proof fn lemma_meta_of<S: RangeSource>(
    src: &S,
    bytes: Seq<u8>,
    r: Result<MetaView, RunError>,
)
    requires
        faithful(src, bytes),
        meta_read(src, r),
    ensures
        r == meta_of(bytes),
{
    if bytes.len() >= TRAILER_LEN {
        let n = bytes.len() as int;
        assert(bytes.subrange(n - TRAILER_LEN, n) =~= bytes.skip(n - TRAILER_LEN));
    }
}

/// A block that an honest cache holds is the one that was written.
pub proof fn lemma_find_honest(c: CacheView, es: Seq<EntryView>, k: int)
    requires
        fits(es),
        honest(c, es),
        0 <= k < index_from(es, 0, 0).len(),
        c.find(index_from(es, 0, 0)[k].1) is Some,
    ensures
        c.find(index_from(es, 0, 0)[k].1) == Some(encode(block_entries(es, k))),
{
    let ix = index_from(es, 0, 0);
    let off = ix[k].1;
    lemma_run_len(es, 0);
    let w = choose|i: int| 0 <= i < c.blocks.len() && (#[trigger] c.blocks[i]).0 == off;
    lemma_first(c.blocks, off, w);
    let i = choose|i: int|
        0 <= i < c.blocks.len() && (#[trigger] c.blocks[i]).0 == off && forall|j: int|
            0 <= j < i ==> (#[trigger] c.blocks[j]).0 != off;
    let m = choose|m: int|
        0 <= m < ix.len() && (#[trigger] ix[m]).1 == c.blocks[i].0 && c.blocks[i].1 == encode(
            block_entries(es, m),
        );
    if m < k {
        lemma_offsets_ascend(es, 0, 0, m, k);
    } else if k < m {
        lemma_offsets_ascend(es, 0, 0, k, m);
    }
}

proof fn lemma_first(bs: Seq<CachedView>, off: u64, w: int)
    requires
        0 <= w < bs.len(),
        bs[w].0 == off,
    ensures
        exists|i: int|
            0 <= i < bs.len() && (#[trigger] bs[i]).0 == off && forall|j: int|
                0 <= j < i ==> (#[trigger] bs[j]).0 != off,
    decreases w,
{
    if exists|j: int| 0 <= j < w && (#[trigger] bs[j]).0 == off {
        let j = choose|j: int| 0 <= j < w && (#[trigger] bs[j]).0 == off;
        lemma_first(bs, off, j);
    }
}

proof fn lemma_evict_keeps(bs: Seq<CachedView>, room: nat)
    ensures
        evict(bs, room).len() <= bs.len(),
        forall|i: int|
            0 <= i < evict(bs, room).len() ==> #[trigger] evict(bs, room)[i] == bs[bs.len() - evict(
                bs,
                room,
            ).len() + i],
    decreases bs.len(),
{
    if bs.len() > 0 {
        lemma_evict_keeps(bs.skip(1), room);
    }
}

/// A block read through an honest cache is the block that was written, and the cache stays
/// honest.
pub proof fn lemma_block_read<S: RangeSource>(
    src: &S,
    es: Seq<EntryView>,
    horizon: u64,
    k: int,
    c0: CacheView,
    c1: CacheView,
    a: Answer,
)
    requires
        fits(es),
        faithful(src, run_bytes(es, horizon)),
        honest(c0, es),
        0 <= k < index_from(es, 0, 0).len(),
        block_read(src, c0, index_from(es, 0, 0)[k].1, index_from(es, 0, 0)[k].2, c1, a),
    ensures
        a == Ok::<Seq<u8>, RunError>(encode(block_entries(es, k))),
        honest(c1, es),
{
    let ix = index_from(es, 0, 0);
    lemma_block_of_built(es, horizon, k);
    if c0.find(ix[k].1) is Some {
        lemma_find_honest(c0, es, k);
        assert(c1.blocks == c0.blocks);
    } else {
        assert(honest(c0.miss(), es)) by {
            assert(c0.miss().blocks == c0.blocks);
        }
        lemma_with_honest(c0.miss(), es, k);
    }
}

/// A cache that takes in a block that was written stays honest.
pub proof fn lemma_with_honest(c: CacheView, es: Seq<EntryView>, k: int)
    requires
        honest(c, es),
        0 <= k < index_from(es, 0, 0).len(),
    ensures
        honest(c.with(index_from(es, 0, 0)[k].1, encode(block_entries(es, k))), es),
{
    let ix = index_from(es, 0, 0);
    let b = encode(block_entries(es, k));
    let c1 = c.with(ix[k].1, b);
    let room = (c.cap - b.len()) as nat;
    if !(c.cap == 0 || b.len() > c.cap) {
        lemma_evict_keeps(c.blocks, room);
        let kept = evict(c.blocks, room);
        assert forall|i: int| 0 <= i < c1.blocks.len() implies exists|m: int|
            0 <= m < ix.len() && (#[trigger] ix[m]).1 == (#[trigger] c1.blocks[i]).0
                && c1.blocks[i].1 == encode(block_entries(es, m)) by {
            if i < kept.len() {
                assert(c1.blocks[i] == c.blocks[c.blocks.len() - kept.len() + i]);
            } else {
                assert(c1.blocks[i] == (ix[k].1, b));
            }
        }
    }
}

/// Blocks read through an honest cache are the blocks that were written.
pub proof fn lemma_blocks_read<S: RangeSource>(
    src: &S,
    es: Seq<EntryView>,
    horizon: u64,
    c0: CacheView,
    reads: Seq<Read>,
    c1: CacheView,
)
    requires
        fits(es),
        faithful(src, run_bytes(es, horizon)),
        honest(c0, es),
        blocks_read(src, index_from(es, 0, 0), c0, reads, c1),
    ensures
        true_reads(es, reads),
        honest(c1, es),
    decreases reads.len(),
{
    let ix = index_from(es, 0, 0);
    reveal(blocks_read);
    if reads.len() > 0 {
        let last = reads.last();
        let c = choose|c: CacheView|
            blocks_read(src, ix, c0, reads.drop_last(), c) && #[trigger] block_read(
                src,
                c,
                ix[last.0].1,
                ix[last.0].2,
                c1,
                last.1,
            );
        lemma_blocks_read(src, es, horizon, c0, reads.drop_last(), c);
        lemma_block_read(src, es, horizon, last.0, c, c1, last.1);
        assert forall|i: int| 0 <= i < reads.len() implies true_read(es, #[trigger] reads[i]) by {
            if i < reads.len() - 1 {
                assert(true_read(es, reads.drop_last()[i]));
            }
        }
    }
}

/// A block came back as it was written.
pub open spec fn true_read(es: Seq<EntryView>, r: Read) -> bool {
    0 <= r.0 < index_from(es, 0, 0).len() && r.1 == Ok::<Seq<u8>, RunError>(
        encode(block_entries(es, r.0)),
    )
}

pub open spec fn true_reads(es: Seq<EntryView>, reads: Seq<Read>) -> bool {
    forall|i: int| 0 <= i < reads.len() ==> true_read(es, #[trigger] reads[i])
}

proof fn lemma_joined(es: Seq<EntryView>, got: Seq<Answer>)
    requires
        fits(es),
        got.len() <= index_from(es, 0, 0).len(),
        forall|k: int|
            0 <= k < got.len() ==> #[trigger] got[k] == Ok::<Seq<u8>, RunError>(
                encode(block_entries(es, k)),
            ),
    ensures
        0 <= block_start(es, 0, got.len()) <= es.len(),
        joined(got) == Ok::<Seq<EntryView>, RunError>(es.take(block_start(es, 0, got.len()))),
    decreases got.len(),
{
    if got.len() == 0 {
        assert(es.take(0) =~= Seq::empty());
    } else {
        let n = got.len() - 1;
        assert forall|k: int| 0 <= k < got.drop_last().len() implies #[trigger] got.drop_last()[k]
            == Ok::<Seq<u8>, RunError>(encode(block_entries(es, k))) by {
            assert(got[k] == Ok::<Seq<u8>, RunError>(encode(block_entries(es, k))));
        }
        lemma_joined(es, got.drop_last());
        lemma_block_of_built(es, 0, n);
        let s = block_start(es, 0, n as nat);
        assert(got.last() == got[n]);
        assert(es.take(s) + block_entries(es, n) =~= es.take(block_end(es, s)));
    }
}

/// A run scanned in full gives back the entries it was built from.
pub proof fn lemma_scan_built<S: RangeSource>(
    src: &S,
    es: Seq<EntryView>,
    horizon: u64,
    got: Seq<Answer>,
    r: Result<Seq<EntryView>, RunError>,
)
    requires
        fits(es),
        faithful(src, run_bytes(es, horizon)),
        drained(src, index_from(es, 0, 0), got, r),
    ensures
        r == Ok::<Seq<EntryView>, RunError>(es),
{
    let ix = index_from(es, 0, 0);
    assert forall|k: int| 0 <= k < got.len() implies #[trigger] got[k] == Ok::<Seq<u8>, RunError>(
        encode(block_entries(es, k)),
    ) by {
        lemma_block_of_built(es, horizon, k);
        assert(fetched(src, ix[k].1, ix[k].2, got[k]));
    }
    lemma_joined(es, got);
    lemma_blocks_cover(es, 0, 0);
    assert(es.take(es.len() as int) =~= es);
}

} // verus!
