//! What a run gives back of what was written into it.
use crate::bloom::{filter_of, lemma_filter_len};
use crate::codec::{le, lemma_from_le_le, lemma_le_from_le, lemma_le_len, lemma_span, span_of};
use crate::commit::EntryView;
use crate::run_format::{
    block_end, block_from, block_stop, blocks_from, encode, entry_bytes, index_bytes,
    index_entry_bytes, index_from, lemma_block_end, low32, rows_of, run_bytes, sealed, trailer_for, IndexView,
    RunError, Trailer, MAGIC, MAGIC_V2, TRAILER_LEN,
};
use crate::run_read::{
    num_at, read_entries, read_entry, read_index, read_meta_bytes, read_trailer, trailer_fields,
    unseal, MetaView,
};
use crate::sums::crc32c_of;
use vstd::prelude::*;

verus! {

/// The key and the value of an entry are short enough for their four-byte length fields.
pub open spec fn entry_fits(e: EntryView) -> bool {
    e.0.len() < 0x1_0000_0000 && (e.1 matches Some(v) ==> v.len() < 0x1_0000_0000)
}

/// Every length in the run over `es` fits the field that holds it.
pub open spec fn fits(es: Seq<EntryView>) -> bool {
    &&& forall|i: int| 0 <= i < es.len() ==> entry_fits(#[trigger] es[i])
    &&& forall|i: int| 0 <= i < es.len() ==> (#[trigger] block_from(es, i)).len() < 0x1_0000_0000
    &&& index_bytes(index_from(es, 0, 0)).len() < 0x1_0000_0000
    &&& run_bytes(es, 0).len() < 0x1_0000_0000_0000_0000
}

proof fn lemma_num_at(s: Seq<u8>, at: int, w: nat, x: nat)
    requires
        0 <= at,
        at + w <= s.len(),
        x < span_of(w),
        s.subrange(at, at + w) == le(x, w),
    ensures
        num_at(s, at, w as int) == x,
{
    lemma_from_le_le(x, w);
}

/// A block is accepted exactly when it is some bytes with their own checksum behind them.
/// A short read, a truncated upload or a flipped bit that the checksum tells apart is an
/// error.
pub proof fn lemma_unseal_accepts(raw: Seq<u8>, body: Seq<u8>)
    ensures
        unseal(raw) == Ok::<Seq<u8>, RunError>(body) <==> raw == sealed(body),
{
    lemma_span();
    lemma_le_len(crc32c_of(body) as nat, 4);
    lemma_from_le_le(crc32c_of(body) as nat, 4);
    if raw == sealed(body) {
        assert(raw.take(raw.len() - 4) =~= body);
        assert(raw.subrange(raw.len() - 4, raw.len() - 4 + 4) =~= le(crc32c_of(body) as nat, 4));
    }
    if unseal(raw) == Ok::<Seq<u8>, RunError>(body) {
        let t = raw.subrange(raw.len() - 4, raw.len() - 4 + 4);
        lemma_le_from_le(t);
        assert(raw =~= raw.take(raw.len() - 4) + t);
    }
}

/// The encoding of two stretches of entries, one behind the other.
pub proof fn lemma_encode_add(a: Seq<EntryView>, b: Seq<EntryView>)
    ensures
        encode(a + b) == encode(a) + encode(b),
    decreases b.len(),
{
    if b.len() == 0 {
        assert(a + b =~= a);
        assert(encode(a) + encode(b) =~= encode(a));
    } else {
        lemma_encode_add(a, b.drop_last());
        assert((a + b).drop_last() =~= a + b.drop_last());
        assert(encode(a) + encode(b) =~= encode(a) + encode(b.drop_last()) + entry_bytes(b.last()));
    }
}

proof fn lemma_encode_one(e: EntryView)
    ensures
        encode(seq![e]) == entry_bytes(e),
{
    let s = seq![e];
    assert(s.drop_last() =~= Seq::empty());
    assert(encode(s.drop_last()) =~= Seq::empty());
    assert(Seq::<u8>::empty() + entry_bytes(e) =~= entry_bytes(e));
}

/// An entry reads back from its encoding.
pub proof fn lemma_read_entry(pre: Seq<u8>, e: EntryView, post: Seq<u8>)
    requires
        entry_fits(e),
    ensures
        ({
            let b = pre + entry_bytes(e) + post;
            read_entry(b, pre.len() as int) == Some((e, (pre.len() + entry_bytes(e).len()) as int))
        }),
        entry_bytes(e).len() >= 9,
{
    let b = pre + entry_bytes(e) + post;
    let p = pre.len() as int;
    lemma_span();
    lemma_le_len(low32(e.0.len()), 4);
    assert(b.subrange(p, p + 4) =~= le(low32(e.0.len()), 4));
    lemma_num_at(b, p, 4, e.0.len());
    let q = p + 4 + e.0.len();
    assert(b.subrange(p + 4, q) =~= e.0);
    match e.1 {
        Some(v) => {
            lemma_le_len(low32(v.len()), 4);
            assert(b[q] == 0);
            assert(b.subrange(q + 1, q + 1 + 4) =~= le(low32(v.len()), 4));
            lemma_num_at(b, q + 1, 4, v.len());
            assert(b.subrange(q + 5, q + 5 + v.len()) =~= v);
        },
        None => {
            lemma_le_len(0, 4);
            assert(b[q] == 1);
            assert(b.subrange(q + 1, q + 1 + 4) =~= le(0, 4));
            lemma_num_at(b, q + 1, 4, 0);
        },
    }
}

proof fn lemma_read_entries_from(pre: Seq<u8>, es: Seq<EntryView>)
    requires
        forall|i: int| 0 <= i < es.len() ==> entry_fits(#[trigger] es[i]),
    ensures
        read_entries(pre + encode(es), pre.len() as int) == Ok::<Seq<EntryView>, RunError>(es),
    decreases es.len(),
{
    let b = pre + encode(es);
    if es.len() == 0 {
        assert(es =~= Seq::empty());
    } else {
        let e = es[0];
        let rest = es.skip(1);
        lemma_encode_add(seq![e], rest);
        lemma_encode_one(e);
        assert(es =~= seq![e] + rest);
        let pre2 = pre + entry_bytes(e);
        assert(b =~= pre + entry_bytes(e) + encode(rest));
        lemma_read_entry(pre, e, encode(rest));
        assert forall|i: int| 0 <= i < rest.len() implies entry_fits(#[trigger] rest[i]) by {
            assert(entry_fits(es[i + 1]));
        }
        lemma_read_entries_from(pre2, rest);
        assert(b =~= pre2 + encode(rest));
    }
}

/// Entries encoded into a block decode to themselves.
pub proof fn lemma_decode_encode(es: Seq<EntryView>)
    requires
        forall|i: int| 0 <= i < es.len() ==> entry_fits(#[trigger] es[i]),
    ensures
        read_entries(encode(es), 0) == Ok::<Seq<EntryView>, RunError>(es),
{
    lemma_read_entries_from(Seq::empty(), es);
    assert(Seq::<u8>::empty() + encode(es) =~= encode(es));
}

proof fn lemma_index_bytes_add(a: Seq<IndexView>, b: Seq<IndexView>)
    ensures
        index_bytes(a + b) == index_bytes(a) + index_bytes(b),
    decreases b.len(),
{
    if b.len() == 0 {
        assert(a + b =~= a);
        assert(index_bytes(a) + index_bytes(b) =~= index_bytes(a));
    } else {
        lemma_index_bytes_add(a, b.drop_last());
        assert((a + b).drop_last() =~= a + b.drop_last());
        assert(index_bytes(a) + index_bytes(b) =~= index_bytes(a) + index_bytes(b.drop_last())
            + index_entry_bytes(b.last()));
    }
}

proof fn lemma_index_bytes_one(e: IndexView)
    ensures
        index_bytes(seq![e]) == index_entry_bytes(e),
        index_entry_bytes(e).len() == 16 + e.0.len(),
{
    let s = seq![e];
    assert(s.drop_last() =~= Seq::empty());
    assert(index_bytes(s.drop_last()) =~= Seq::empty());
    assert(Seq::<u8>::empty() + index_entry_bytes(e) =~= index_entry_bytes(e));
    lemma_le_len(low32(e.0.len()), 4);
    lemma_le_len(e.1 as nat, 8);
    lemma_le_len(e.2 as nat, 4);
}

proof fn lemma_read_index_entry(pre: Seq<u8>, e: IndexView, post: Seq<u8>)
    requires
        e.0.len() < 0x1_0000_0000,
    ensures
        ({
            let b = pre + index_entry_bytes(e) + post;
            let p = pre.len() as int;
            let n = e.0.len() as int;
            &&& p + 16 + n <= b.len()
            &&& num_at(b, p, 4) == n
            &&& b.subrange(p + 4, p + 4 + n) == e.0
            &&& num_at(b, p + 4 + n, 8) == e.1
            &&& num_at(b, p + 12 + n, 4) == e.2
        }),
{
    let b = pre + index_entry_bytes(e) + post;
    let p = pre.len() as int;
    let n = e.0.len() as int;
    lemma_span();
    lemma_le_len(low32(e.0.len()), 4);
    lemma_le_len(e.1 as nat, 8);
    lemma_le_len(e.2 as nat, 4);
    assert(b.subrange(p, p + 4) =~= le(low32(e.0.len()), 4));
    lemma_num_at(b, p, 4, e.0.len());
    assert(b.subrange(p + 4, p + 4 + n) =~= e.0);
    assert(b.subrange(p + 4 + n, p + 4 + n + 8) =~= le(e.1 as nat, 8));
    lemma_num_at(b, p + 4 + n, 8, e.1 as nat);
    assert(b.subrange(p + 12 + n, p + 12 + n + 4) =~= le(e.2 as nat, 4));
    lemma_num_at(b, p + 12 + n, 4, e.2 as nat);
}

proof fn lemma_read_index_from(pre: Seq<u8>, ix: Seq<IndexView>)
    requires
        forall|i: int| 0 <= i < ix.len() ==> (#[trigger] ix[i]).0.len() < 0x1_0000_0000,
    ensures
        read_index(pre + index_bytes(ix), pre.len() as int) == Some(ix),
        16 * ix.len() <= index_bytes(ix).len(),
    decreases ix.len(),
{
    let b = pre + index_bytes(ix);
    if ix.len() == 0 {
        assert(ix =~= Seq::empty());
    } else {
        let e = ix[0];
        let rest = ix.skip(1);
        lemma_index_bytes_add(seq![e], rest);
        lemma_index_bytes_one(e);
        assert(ix =~= seq![e] + rest);
        let pre2 = pre + index_entry_bytes(e);
        assert(b =~= pre2 + index_bytes(rest));
        assert forall|i: int| 0 <= i < rest.len() implies (#[trigger] rest[i]).0.len()
            < 0x1_0000_0000 by {
            assert(ix[i + 1].0.len() < 0x1_0000_0000);
        }
        lemma_read_index_from(pre2, rest);
        lemma_read_index_entry(pre, e, index_bytes(rest));
    }
}

/// The trailer as stored reads back field by field.
proof fn lemma_trailer_fields(t: Trailer)
    ensures
        t.bytes().len() == TRAILER_LEN,
        trailer_fields(t.bytes()) == t,
        num_at(t.bytes(), 48, 4) == crc32c_of(t.bytes().take(48)),
        num_at(t.bytes(), 52, 4) == MAGIC,
{
    let b = t.bytes();
    let f = t.fields();
    lemma_span();
    lemma_le_len(t.bloom_off as nat, 8);
    lemma_le_len(t.bloom_len as nat, 4);
    lemma_le_len(t.index_off as nat, 8);
    lemma_le_len(t.index_len as nat, 4);
    lemma_le_len(t.block_count as nat, 4);
    lemma_le_len(t.entry_count as nat, 8);
    lemma_le_len(t.horizon as nat, 8);
    lemma_le_len(t.meta_crc as nat, 4);
    lemma_le_len(crc32c_of(f) as nat, 4);
    lemma_le_len(MAGIC as nat, 4);
    assert(f.len() == 48);
    assert(b.take(48) =~= f);
    assert(b.subrange(0, 8) =~= le(t.bloom_off as nat, 8));
    lemma_num_at(b, 0, 8, t.bloom_off as nat);
    assert(b.subrange(8, 12) =~= le(t.bloom_len as nat, 4));
    lemma_num_at(b, 8, 4, t.bloom_len as nat);
    assert(b.subrange(12, 20) =~= le(t.index_off as nat, 8));
    lemma_num_at(b, 12, 8, t.index_off as nat);
    assert(b.subrange(20, 24) =~= le(t.index_len as nat, 4));
    lemma_num_at(b, 20, 4, t.index_len as nat);
    assert(b.subrange(24, 28) =~= le(t.block_count as nat, 4));
    lemma_num_at(b, 24, 4, t.block_count as nat);
    assert(b.subrange(28, 36) =~= le(t.entry_count as nat, 8));
    lemma_num_at(b, 28, 8, t.entry_count as nat);
    assert(b.subrange(36, 44) =~= le(t.horizon as nat, 8));
    lemma_num_at(b, 36, 8, t.horizon as nat);
    assert(b.subrange(44, 48) =~= le(t.meta_crc as nat, 4));
    lemma_num_at(b, 44, 4, t.meta_crc as nat);
    assert(b.subrange(48, 52) =~= le(crc32c_of(f) as nat, 4));
    lemma_num_at(b, 48, 4, crc32c_of(f) as nat);
    assert(b.subrange(52, 56) =~= le(MAGIC as nat, 4));
    lemma_num_at(b, 52, 4, MAGIC as nat);
}

/// The metadata of the run over `es`.
pub open spec fn built_meta(es: Seq<EntryView>, horizon: u64) -> MetaView {
    MetaView {
        bloom: filter_of(rows_of(es)),
        index: index_from(es, 0, 0),
        entry_count: es.len() as u64,
        horizon,
    }
}

proof fn lemma_index_keys(es: Seq<EntryView>, i: int, off: nat)
    requires
        forall|k: int| 0 <= k < es.len() ==> entry_fits(#[trigger] es[k]),
        0 <= i <= es.len(),
    ensures
        forall|k: int|
            0 <= k < index_from(es, i, off).len() ==> (#[trigger] index_from(es, i, off)[k]).0.len()
                < 0x1_0000_0000,
    decreases es.len() - i,
{
    if i < es.len() {
        lemma_block_end(es, i);
        let next = off + block_from(es, i).len();
        lemma_index_keys(es, block_end(es, i), next);
        let ix = index_from(es, i, off);
        assert forall|k: int| 0 <= k < ix.len() implies (#[trigger] ix[k]).0.len()
            < 0x1_0000_0000 by {
            if k > 0 {
                assert(ix[k] == index_from(es, block_end(es, i), next)[k - 1]);
            } else {
                assert(entry_fits(es[i]));
            }
        }
    }
}

/// The lengths of the parts of a run.
pub proof fn lemma_run_len(es: Seq<EntryView>, horizon: u64)
    ensures
        run_bytes(es, horizon).len() == blocks_from(es, 0).len() + filter_of(rows_of(es)).len()
            + index_bytes(index_from(es, 0, 0)).len() + TRAILER_LEN,
{
    lemma_trailer_fields(trailer_for(es, horizon));
}

/// The end of a run is its trailer, and what that names is its filter and index: opening a
/// run reads back the filter, the index, the entry count and the horizon it was built with.
pub proof fn lemma_meta_of_built(es: Seq<EntryView>, horizon: u64)
    requires
        fits(es),
    ensures
        ({
            let b = run_bytes(es, horizon);
            let t = trailer_for(es, horizon);
            let n = b.len();
            &&& TRAILER_LEN <= n <= u64::MAX
            &&& read_trailer(n as u64, b.subrange(n - TRAILER_LEN, n as int)) == Ok::<
                Trailer,
                RunError,
            >(t)
            &&& t.bloom_off + t.bloom_len + t.index_len <= n
            &&& t.bloom_off == blocks_from(es, 0).len()
            &&& read_meta_bytes(
                t,
                b.subrange(t.bloom_off as int, t.bloom_off + t.bloom_len + t.index_len),
            ) == Ok::<MetaView, RunError>(built_meta(es, horizon))
        }),
{
    let t = trailer_for(es, horizon);
    let filter = filter_of(rows_of(es));
    let ib = index_bytes(index_from(es, 0, 0));
    lemma_run_len(es, horizon);
    lemma_run_len(es, 0);
    lemma_filter_len(rows_of(es));
    lemma_parts(blocks_from(es, 0), filter, ib, t.bytes());
    lemma_trailer_accepted(t, run_bytes(es, horizon).len() as u64);
    assert((filter + ib).take((filter.len() + low32(ib.len())) as int) =~= filter + ib);
    lemma_meta_accepted(es, t);
}

proof fn lemma_trailer_accepted(t: Trailer, size: u64)
    requires
        t.bloom_off + t.bloom_len == t.index_off,
        t.index_off + t.index_len <= size - TRAILER_LEN,
    ensures
        t.bytes().len() == TRAILER_LEN,
        read_trailer(size, t.bytes()) == Ok::<Trailer, RunError>(t),
{
    lemma_trailer_fields(t);
    assert(MAGIC != MAGIC_V2);
}

proof fn lemma_meta_accepted(es: Seq<EntryView>, t: Trailer)
    requires
        fits(es),
        ({
            let filter = filter_of(rows_of(es));
            let ib = index_bytes(index_from(es, 0, 0));
            &&& t.bloom_len == filter.len()
            &&& t.index_len == ib.len()
            &&& t.meta_crc == crc32c_of(filter + ib)
            &&& t.block_count == low32(index_from(es, 0, 0).len())
            &&& t.entry_count == es.len() as u64
        }),
    ensures
        read_meta_bytes(t, filter_of(rows_of(es)) + index_bytes(index_from(es, 0, 0))) == Ok::<
            MetaView,
            RunError,
        >(built_meta(es, t.horizon)),
{
    let filter = filter_of(rows_of(es));
    let ix = index_from(es, 0, 0);
    let ib = index_bytes(ix);
    let m = filter + ib;
    assert(m.skip(t.bloom_len as int) =~= ib);
    assert(m.take(t.bloom_len as int) =~= filter);
    lemma_index_keys(es, 0, 0);
    lemma_read_index_from(Seq::empty(), ix);
    assert(Seq::<u8>::empty() + ib =~= ib);
}

proof fn lemma_parts(a: Seq<u8>, f: Seq<u8>, x: Seq<u8>, t: Seq<u8>)
    ensures
        ({
            let b = a + f + x + t;
            &&& b.subrange(b.len() - t.len(), b.len() as int) == t
            &&& b.subrange(a.len() as int, (a.len() + f.len() + x.len()) as int) == f + x
        }),
{
    let b = a + f + x + t;
    assert(b.subrange(b.len() - t.len(), b.len() as int) =~= t);
    assert(b.subrange(a.len() as int, (a.len() + f.len() + x.len()) as int) =~= f + x);
}

/// Which entries the `k`-th block from entry `i` on starts with.
pub open spec fn block_start(es: Seq<EntryView>, i: int, k: nat) -> int
    decreases k,
{
    if k == 0 {
        i
    } else {
        block_end(es, block_start(es, i, (k - 1) as nat))
    }
}

proof fn lemma_block_start_shift(es: Seq<EntryView>, i: int, k: nat)
    ensures
        block_start(es, block_end(es, i), k) == block_start(es, i, k + 1),
    decreases k,
{
    reveal_with_fuel(block_start, 2);
    if k > 0 {
        lemma_block_start_shift(es, i, (k - 1) as nat);
    }
}

/// What the index says of block `k`, and where that block lies.
proof fn lemma_index_block(es: Seq<EntryView>, i: int, off: nat, k: int)
    requires
        0 <= i <= es.len(),
        0 <= k < index_from(es, i, off).len(),
        forall|j: int| 0 <= j < es.len() ==> (#[trigger] block_from(es, j)).len() < 0x1_0000_0000,
        off + blocks_from(es, i).len() <= u64::MAX,
    ensures
        ({
            let s = block_start(es, i, k as nat);
            let e = index_from(es, i, off)[k];
            &&& i <= s < es.len()
            &&& e.0 == es[s].0
            &&& e.2 == block_from(es, s).len()
            &&& off <= e.1
            &&& e.1 + e.2 <= off + blocks_from(es, i).len()
            &&& blocks_from(es, i).subrange(e.1 - off, e.1 - off + e.2) == block_from(es, s)
        }),
    decreases es.len() - i,
{
    assert(i < es.len());
    lemma_block_end(es, i);
    let b = block_from(es, i);
    let next = block_end(es, i);
    let rest = blocks_from(es, next);
    assert(blocks_from(es, i) == b + rest);
    let ix = index_from(es, i, off);
    let tail = index_from(es, next, off + b.len());
    assert(ix == seq![(es[i].0, off as u64, low32(b.len()) as u32)] + tail);
    if k == 0 {
        assert(blocks_from(es, i).subrange(0, b.len() as int) =~= b);
    } else {
        lemma_index_block(es, next, off + b.len(), k - 1);
        lemma_block_start_shift(es, i, (k - 1) as nat);
        let e = ix[k];
        assert(e == tail[k - 1]);
        assert(blocks_from(es, i).subrange(e.1 - off, e.1 - off + e.2) =~= rest.subrange(
            e.1 - off - b.len(),
            e.1 - off - b.len() + e.2,
        ));
    }
}

/// The entries of block `k` of the run over `es`.
pub open spec fn block_entries(es: Seq<EntryView>, k: int) -> Seq<EntryView> {
    let s = block_start(es, 0, k as nat);
    es.subrange(s, block_end(es, s))
}

/// The index of a run names, for each block, its first key and the bytes whose verified
/// content decodes to the entries that were put into it.
pub proof fn lemma_block_of_built(es: Seq<EntryView>, horizon: u64, k: int)
    requires
        fits(es),
        0 <= k < index_from(es, 0, 0).len(),
    ensures
        ({
            let b = run_bytes(es, horizon);
            let e = index_from(es, 0, 0)[k];
            let s = block_start(es, 0, k as nat);
            &&& 0 <= s < block_end(es, s) <= es.len()
            &&& e.0 == es[s].0
            &&& e.1 + e.2 <= b.len()
            &&& unseal(b.subrange(e.1 as int, e.1 + e.2)) == Ok::<Seq<u8>, RunError>(
                encode(block_entries(es, k)),
            )
            &&& read_entries(encode(block_entries(es, k)), 0) == Ok::<Seq<EntryView>, RunError>(
                block_entries(es, k),
            )
        }),
{
    let b = run_bytes(es, horizon);
    let e = index_from(es, 0, 0)[k];
    let s = block_start(es, 0, k as nat);
    lemma_run_len(es, horizon);
    lemma_run_len(es, 0);
    lemma_index_block(es, 0, 0, k);
    lemma_block_end(es, s);
    let part = block_entries(es, k);
    assert(b.subrange(e.1 as int, e.1 + e.2) =~= blocks_from(es, 0).subrange(
        e.1 as int,
        e.1 + e.2,
    ));
    lemma_unseal_accepts(block_from(es, s), encode(part));
    assert forall|i: int| 0 <= i < part.len() implies entry_fits(#[trigger] part[i]) by {
        assert(entry_fits(es[s + i]));
    }
    lemma_decode_encode(part);
}

/// Blocks follow one another without a gap, the first from the first entry and the last to
/// the end.
pub proof fn lemma_blocks_cover(es: Seq<EntryView>, i: int, off: nat)
    requires
        0 <= i <= es.len(),
    ensures
        block_start(es, i, index_from(es, i, off).len()) == es.len(),
        index_from(es, i, off).len() == 0 <==> i == es.len(),
    decreases es.len() - i,
{
    if i < es.len() {
        lemma_block_end(es, i);
        let next = off + block_from(es, i).len();
        lemma_blocks_cover(es, block_end(es, i), next);
        let n = index_from(es, block_end(es, i), next).len();
        lemma_block_start_shift(es, i, n);
        assert(index_from(es, i, off).len() == n + 1);
    }
}

/// Offsets in an index are those of different blocks.
pub proof fn lemma_offsets_ascend(es: Seq<EntryView>, i: int, off: nat, j: int, k: int)
    requires
        0 <= i <= es.len(),
        0 <= j < k < index_from(es, i, off).len(),
        forall|j: int| 0 <= j < es.len() ==> (#[trigger] block_from(es, j)).len() < 0x1_0000_0000,
        off + blocks_from(es, i).len() <= u64::MAX,
    ensures
        index_from(es, i, off)[j].1 < index_from(es, i, off)[k].1,
    decreases es.len() - i,
{
    assert(i < es.len());
    lemma_block_end(es, i);
    let b = block_from(es, i);
    let next = block_end(es, i);
    lemma_le_len(crc32c_of(encode(es.subrange(i, next))) as nat, 4);
    assert(b.len() >= 4);
    let tail = index_from(es, next, off + b.len());
    assert(index_from(es, i, off) == seq![(es[i].0, off as u64, low32(b.len()) as u32)] + tail);
    assert(blocks_from(es, i) == b + blocks_from(es, next));
    if j == 0 {
        lemma_index_block(es, next, off + b.len(), k - 1);
    } else {
        lemma_offsets_ascend(es, next, off + b.len(), j - 1, k - 1);
    }
}

/// The blocks of a run lie one behind the other, from the first to the last.
pub proof fn lemma_blocks_touch(es: Seq<EntryView>, i: int, off: nat, k: int)
    requires
        0 <= i <= es.len(),
        0 < k < index_from(es, i, off).len(),
        forall|j: int| 0 <= j < es.len() ==> (#[trigger] block_from(es, j)).len() < 0x1_0000_0000,
        off + blocks_from(es, i).len() <= u64::MAX,
    ensures
        ({
            let ix = index_from(es, i, off);
            ix[k - 1].1 + ix[k - 1].2 == ix[k].1 && ix[k].1 + ix[k].2 <= u64::MAX
        }),
    decreases es.len() - i,
{
    assert(i < es.len());
    lemma_block_end(es, i);
    let b = block_from(es, i);
    let next = block_end(es, i);
    let tail = index_from(es, next, off + b.len());
    assert(index_from(es, i, off) == seq![(es[i].0, off as u64, low32(b.len()) as u32)] + tail);
    assert(blocks_from(es, i) == b + blocks_from(es, next));
    if k == 1 {
        assert(next < es.len());
        let c = block_from(es, next);
        assert(tail[0] == (es[next].0, (off + b.len()) as u64, low32(c.len()) as u32));
        assert(blocks_from(es, next) == c + blocks_from(es, block_end(es, next)));
    } else {
        lemma_blocks_touch(es, next, off + b.len(), k - 1);
    }
}

proof fn lemma_stop(es: Seq<EntryView>, i: int, j: int)
    requires
        0 <= i <= j <= es.len(),
        j > i ==> encode(es.subrange(i, j - 1)).len() < 65536,
    ensures
        ({
            let e = block_stop(es, i, j);
            &&& j <= e <= es.len()
            &&& e < es.len() ==> encode(es.subrange(i, e)).len() >= 65536
            &&& e > i ==> encode(es.subrange(i, e - 1)).len() < 65536
        }),
    decreases es.len() - j,
{
    if j < es.len() && encode(es.subrange(i, j)).len() < 65536 {
        lemma_stop(es, i, j + 1);
    }
}

/// Blocks are filled: every block but the last takes in entries until it has 64 kilobytes, and none
/// takes in another after that.
pub proof fn lemma_blocks_are_filled(es: Seq<EntryView>, i: int)
    requires
        0 <= i < es.len(),
    ensures
        ({
            let e = block_end(es, i);
            &&& i < e <= es.len()
            &&& e < es.len() ==> encode(es.subrange(i, e)).len() >= 65536
            &&& encode(es.subrange(i, e - 1)).len() < 65536
        }),
{
    lemma_block_end(es, i);
    lemma_stop(es, i, i);
}

} // verus!
