//! What point reads of a run answer, stated over the entries it was built from.
use crate::bloom::{admits, lemma_filter_admits};
use crate::commit::EntryView;
use crate::key::{
    is_version_of, lemma_newest_first, lemma_parts_versioned, seq_part, versioned_key,
};
use crate::order::{
    below, lemma_below_asymmetric, lemma_below_at_most, lemma_below_transitive,
};
use crate::run::{
    adjacent, combed, contiguous, goes_on, lemma_contiguous, lemma_point_read_costs_one,
    lemma_span_end, locate_outcome, part_of, point_read, read_once, search, seek_pos, span_end,
    span_len, CacheView, RangeSource, Run,
};
use crate::run_answers::{
    faithful, honest, lemma_find_honest, lemma_with_honest, sorted,
};
use crate::run_format::{encode, entry_bytes, index_from, rows_of, run_bytes, RunError};
use crate::run_laws::{
    block_entries, block_start, entry_fits, fits, lemma_block_of_built, lemma_blocks_cover,
    lemma_blocks_touch, lemma_encode_add, lemma_read_entry, lemma_run_len,
};
use crate::run_read::seek_version;
use crate::run_scans::{holds, lemma_index_ascends, lemma_starts, lemma_starts_mono};
use vstd::prelude::*;

verus! {

/// `e` is a version of `row` that `snapshot` sees.
pub open spec fn seen_version(row: Seq<u8>, snapshot: u64, e: EntryView) -> bool {
    is_version_of(e.0, row) && (seq_part(e.0) matches Some(s) && s <= snapshot)
}

/// `e` is the newest version of `row` in `es` that `snapshot` sees.
pub open spec fn live(es: Seq<EntryView>, row: Seq<u8>, snapshot: u64, e: EntryView) -> bool {
    &&& es.contains(e)
    &&& seen_version(row, snapshot, e)
    &&& forall|i: int|
        0 <= i < es.len() && seen_version(row, snapshot, #[trigger] es[i]) ==> seq_part(es[i].0).unwrap()
            <= seq_part(e.0).unwrap()
}

/// The first entry that is a version of `row` that `snapshot` sees.
pub open spec fn first_seen(es: Seq<EntryView>, row: Seq<u8>, snapshot: u64) -> Option<EntryView>
    decreases es.len(),
{
    if es.len() == 0 {
        None
    } else if seen_version(row, snapshot, es[0]) {
        Some(es[0])
    } else {
        first_seen(es.skip(1), row, snapshot)
    }
}

proof fn lemma_first_seen(es: Seq<EntryView>, row: Seq<u8>, snapshot: u64)
    ensures
        match first_seen(es, row, snapshot) {
            Some(e) => exists|i: int|
                0 <= i < es.len() && #[trigger] es[i] == e && seen_version(row, snapshot, e)
                    && forall|j: int|
                    0 <= j < i ==> !seen_version(row, snapshot, #[trigger] es[j]),
            None => forall|j: int|
                0 <= j < es.len() ==> !seen_version(row, snapshot, #[trigger] es[j]),
        },
    decreases es.len(),
{
    if es.len() > 0 && !seen_version(row, snapshot, es[0]) {
        let rest = es.skip(1);
        lemma_first_seen(rest, row, snapshot);
        match first_seen(rest, row, snapshot) {
            Some(e) => {
                let i = choose|i: int|
                    0 <= i < rest.len() && #[trigger] rest[i] == e && seen_version(row, snapshot, e)
                        && forall|j: int|
                        0 <= j < i ==> !seen_version(row, snapshot, #[trigger] rest[j]);
                assert(es[i + 1] == e);
                assert forall|j: int| 0 <= j < i + 1 implies !seen_version(
                    row,
                    snapshot,
                    #[trigger] es[j],
                ) by {
                    if j > 0 {
                        assert(rest[j - 1] == es[j]);
                    }
                }
            },
            None => {
                assert forall|j: int| 0 <= j < es.len() implies !seen_version(
                    row,
                    snapshot,
                    #[trigger] es[j],
                ) by {
                    if j > 0 {
                        assert(rest[j - 1] == es[j]);
                    }
                }
            },
        }
    }
}

proof fn lemma_first_seen_add(
    a: Seq<EntryView>,
    b: Seq<EntryView>,
    row: Seq<u8>,
    snapshot: u64,
)
    ensures
        first_seen(a + b, row, snapshot) == (match first_seen(a, row, snapshot) {
            Some(e) => Some(e),
            None => first_seen(b, row, snapshot),
        }),
    decreases a.len(),
{
    if a.len() == 0 {
        assert(a + b =~= b);
    } else {
        lemma_first_seen_add(a.skip(1), b, row, snapshot);
        assert((a + b).skip(1) =~= a.skip(1) + b);
    }
}

/// Where the versions of a row lie: between where one written at the snapshot would be and where
/// the oldest would be, if the snapshot sees them.
proof fn lemma_versions_lie(k: Seq<u8>, row: Seq<u8>, snapshot: u64)
    requires
        is_version_of(k, row),
    ensures
        seq_part(k) is Some,
        below(k, versioned_key(row, snapshot)) == (seq_part(k)->0 > snapshot),
        !below(versioned_key(row, 0), k),
{
    lemma_parts_versioned(k);
    lemma_newest_first(row, seq_part(k)->0, snapshot);
    lemma_newest_first(row, 0, seq_part(k)->0);
}

/// Past where the oldest version of a row would be there is none.
proof fn lemma_none_past(es: Seq<EntryView>, row: Seq<u8>, snapshot: u64, i: int)
    requires
        sorted(es),
        0 <= i < es.len(),
        below(versioned_key(row, 0), es[i].0),
    ensures
        forall|j: int| i <= j < es.len() ==> !is_version_of((#[trigger] es[j]).0, row),
{
    assert forall|j: int| i <= j < es.len() implies !is_version_of((#[trigger] es[j]).0, row) by {
        if is_version_of(es[j].0, row) {
            lemma_versions_lie(es[j].0, row, snapshot);
            if i < j {
                lemma_below_transitive(versioned_key(row, 0), es[i].0, es[j].0);
            }
        }
    }
}

proof fn lemma_seek_encoded(pre: Seq<u8>, es: Seq<EntryView>, row: Seq<u8>, snapshot: u64)
    requires
        sorted(es),
        forall|i: int| 0 <= i < es.len() ==> entry_fits(#[trigger] es[i]),
    ensures
        seek_version(pre + encode(es), row, snapshot, pre.len() as int) == Ok::<
            Option<EntryView>,
            RunError,
        >(first_seen(es, row, snapshot)),
    decreases es.len(),
{
    let b = pre + encode(es);
    if es.len() > 0 {
        let e = es[0];
        let rest = es.skip(1);
        let one = seq![e];
        lemma_encode_add(one, rest);
        assert(encode(one) == entry_bytes(e)) by {
            assert(one.drop_last() =~= Seq::empty());
            assert(encode(one.drop_last()) =~= Seq::empty());
            assert(Seq::<u8>::empty() + entry_bytes(e) =~= entry_bytes(e));
        }
        assert(es =~= one + rest);
        let pre2 = pre + entry_bytes(e);
        assert(b =~= pre2 + encode(rest));
        lemma_read_entry(pre, e, encode(rest));
        assert forall|i: int| 0 <= i < rest.len() implies entry_fits(#[trigger] rest[i]) by {
            assert(entry_fits(es[i + 1]));
        }
        lemma_seek_encoded(pre2, rest, row, snapshot);
        if is_version_of(e.0, row) {
            lemma_versions_lie(e.0, row, snapshot);
        }
        if below(versioned_key(row, 0), e.0) {
            lemma_none_past(es, row, snapshot, 0);
            lemma_first_seen(es, row, snapshot);
        }
    }
}

/// A block that came back as it was written gives the first version in it.
proof fn lemma_seek_block(es: Seq<EntryView>, k: int, row: Seq<u8>, snapshot: u64)
    requires
        fits(es),
        sorted(es),
        0 <= k < index_from(es, 0, 0).len(),
    ensures
        seek_version(encode(block_entries(es, k)), row, snapshot, 0) == Ok::<
            Option<EntryView>,
            RunError,
        >(first_seen(block_entries(es, k), row, snapshot)),
{
    lemma_starts(es, k);
    let part = block_entries(es, k);
    let a = block_start(es, 0, k as nat);
    assert forall|i: int| 0 <= i < part.len() implies entry_fits(#[trigger] part[i]) by {
        assert(entry_fits(es[a + i]));
    }
    assert(sorted(part)) by {
        assert forall|i: int, j: int| 0 <= i < j < part.len() implies below(
            (#[trigger] part[i]).0,
            (#[trigger] part[j]).0,
        ) by {
            assert(below(es[a + i].0, es[a + j].0));
        }
    }
    lemma_seek_encoded(Seq::empty(), part, row, snapshot);
    assert(Seq::<u8>::empty() + encode(part) =~= encode(part));
}

/// What the blocks from `at` up to `stop` hold.
pub open spec fn stretch(es: Seq<EntryView>, at: int, stop: int) -> Seq<EntryView> {
    es.subrange(block_start(es, 0, at as nat), block_start(es, 0, stop as nat))
}

proof fn lemma_stretch(es: Seq<EntryView>, at: int, stop: int, row: Seq<u8>, snapshot: u64)
    requires
        fits(es),
        0 <= at <= stop <= index_from(es, 0, 0).len(),
    ensures
        at == stop ==> stretch(es, at, stop) == Seq::<EntryView>::empty(),
        at < stop ==> first_seen(stretch(es, at, stop), row, snapshot) == (match first_seen(
            block_entries(es, at),
            row,
            snapshot,
        ) {
            Some(e) => Some(e),
            None => first_seen(stretch(es, at + 1, stop), row, snapshot),
        }),
{
    lemma_starts(es, at);
    lemma_starts(es, stop);
    lemma_starts_mono(es, at, stop);
    if at < stop {
        lemma_starts_mono(es, at + 1, stop);
        assert(stretch(es, at, stop) =~= block_entries(es, at) + stretch(es, at + 1, stop));
        lemma_first_seen_add(block_entries(es, at), stretch(es, at + 1, stop), row, snapshot);
    } else {
        assert(stretch(es, at, stop) =~= Seq::empty());
    }
}

/// The part that is cut out of bytes that were read at once is the block that was written.
proof fn lemma_part(
    es: Seq<EntryView>,
    horizon: u64,
    raw: Seq<u8>,
    first: int,
    k: int,
    stop: int,
)
    requires
        fits(es),
        0 <= first <= k < stop <= index_from(es, 0, 0).len(),
        contiguous(index_from(es, 0, 0), first, stop),
        ({
            let ix = index_from(es, 0, 0);
            let off = ix[first].1 as int;
            raw == run_bytes(es, horizon).subrange(off, off + span_len(ix, first, stop))
        }),
    ensures
        part_of(index_from(es, 0, 0), raw, first, k, stop) == run_bytes(es, horizon).subrange(
            index_from(es, 0, 0)[k].1 as int,
            index_from(es, 0, 0)[k].1 + index_from(es, 0, 0)[k].2,
        ),
{
    let ix = index_from(es, 0, 0);
    let b = run_bytes(es, horizon);
    lemma_block_of_built(es, horizon, k);
    lemma_block_of_built(es, horizon, stop - 1);
    lemma_contiguous(ix, first, k, stop);
    lemma_contiguous(ix, first, stop - 1, stop);
    assert(contiguous(ix, k, stop));
    lemma_contiguous(ix, k, stop - 1, stop);
    let d = ix[k].1 - ix[first].1;
    assert(raw.len() == span_len(ix, first, stop));
    if k < stop - 1 {
        assert(adjacent(ix, k + 1));
        assert(contiguous(ix, k + 1, stop));
        lemma_contiguous(ix, k + 1, stop - 1, stop);
        assert(d + ix[k].2 <= raw.len());
    } else {
        assert(d + ix[k].2 == raw.len());
    }
    assert(part_of(ix, raw, first, k, stop) =~= b.subrange(ix[k].1 as int, ix[k].1 + ix[k].2));
}

proof fn lemma_combed_true(
    es: Seq<EntryView>,
    horizon: u64,
    row: Seq<u8>,
    snapshot: u64,
    raw: Seq<u8>,
    first: int,
    at: int,
    stop: int,
    c: CacheView,
)
    requires
        fits(es),
        sorted(es),
        honest(c, es),
        0 <= first <= at <= stop <= index_from(es, 0, 0).len(),
        first < stop,
        contiguous(index_from(es, 0, 0), first, stop),
        ({
            let ix = index_from(es, 0, 0);
            let off = ix[first].1 as int;
            raw == run_bytes(es, horizon).subrange(off, off + span_len(ix, first, stop))
        }),
    ensures
        ({
            let got = combed(
                index_from(es, 0, 0),
                row,
                snapshot,
                raw,
                first,
                at,
                stop,
                c,
            );
            honest(got.0, es) && got.1 == Ok::<Option<EntryView>, RunError>(
                first_seen(stretch(es, at, stop), row, snapshot),
            )
        }),
    decreases stop - at,
{
    let ix = index_from(es, 0, 0);
    lemma_stretch(es, at, stop, row, snapshot);
    if at < stop {
        lemma_part(es, horizon, raw, first, at, stop);
        lemma_block_of_built(es, horizon, at);
        lemma_seek_block(es, at, row, snapshot);
        let b = encode(block_entries(es, at));
        let d = c.taking(ix[at].1, b);
        lemma_with_honest(c, es, at);
        lemma_combed_true(
            es,
            horizon,
            row,
            snapshot,
            raw,
            first,
            at + 1,
            stop,
            d,
        );
    }
}

proof fn lemma_point_read_true<S: RangeSource>(
    src: &S,
    es: Seq<EntryView>,
    horizon: u64,
    row: Seq<u8>,
    snapshot: u64,
    at: int,
    stop: int,
    c0: CacheView,
    c1: CacheView,
    r: Result<Option<EntryView>, RunError>,
)
    requires
        fits(es),
        sorted(es),
        faithful(src, run_bytes(es, horizon)),
        honest(c0, es),
        0 <= at <= stop <= index_from(es, 0, 0).len(),
        contiguous(index_from(es, 0, 0), at, stop),
        point_read(src, index_from(es, 0, 0), row, snapshot, at, stop, c0, c1, r),
    ensures
        honest(c1, es),
        r == Ok::<Option<EntryView>, RunError>(first_seen(stretch(es, at, stop), row, snapshot)),
    decreases stop - at,
{
    let ix = index_from(es, 0, 0);
    lemma_stretch(es, at, stop, row, snapshot);
    if at < stop {
        assert(honest(c0.hit(), es)) by {
            assert(c0.hit().blocks == c0.blocks);
        }
        assert(honest(c0.miss(), es)) by {
            assert(c0.miss().blocks == c0.blocks);
        }
        lemma_seek_block(es, at, row, snapshot);
        match c0.find(ix[at].1) {
            Some(b) => {
                lemma_find_honest(c0, es, at);
                if first_seen(block_entries(es, at), row, snapshot) is None {
                    lemma_point_read_true(
                        src,
                        es,
                        horizon,
                        row,
                        snapshot,
                        at + 1,
                        stop,
                        c0.hit(),
                        c1,
                        r,
                    );
                }
            },
            None => {
                lemma_contiguous(ix, at, stop - 1, stop);
                lemma_block_of_built(es, horizon, stop - 1);
                lemma_block_of_built(es, horizon, at);
                lemma_run_len(es, horizon);
                lemma_run_len(es, 0);
                let off = ix[at].1 as int;
                let n = span_len(ix, at, stop);
                assert(0 <= n && off + n <= run_bytes(es, horizon).len());
                lemma_combed_true(
                    es,
                    horizon,
                    row,
                    snapshot,
                    run_bytes(es, horizon).subrange(off, off + n),
                    at,
                    at,
                    stop,
                    c0.miss(),
                );
            },
        }
    }
}

/// The blocks of a span hold the first version that is seen, if there is one anywhere.
proof fn lemma_span_holds(es: Seq<EntryView>, row: Seq<u8>, snapshot: u64, start: int)
    requires
        fits(es),
        sorted(es),
        seek_pos(index_from(es, 0, 0), versioned_key(row, snapshot), start),
    ensures
        ({
            let ix = index_from(es, 0, 0);
            let stop = span_end(ix, row, start + 1);
            &&& start < stop <= ix.len()
            &&& contiguous(ix, start, stop)
            &&& !goes_on(ix, row, start, stop)
            &&& first_seen(stretch(es, start, stop), row, snapshot) == first_seen(
                es,
                row,
                snapshot,
            )
        }),
{
    let ix = index_from(es, 0, 0);
    let probe = versioned_key(row, snapshot);
    let stop = span_end(ix, row, start + 1);
    lemma_span_end(ix, row, start + 1);
    lemma_index_ascends(es);
    lemma_run_len(es, 0);
    if stop < ix.len() {
        lemma_blocks_touch(es, 0, 0, stop);
    }
    let a = block_start(es, 0, start as nat);
    let c = block_start(es, 0, stop as nat);
    lemma_starts(es, start);
    lemma_starts(es, stop);
    lemma_starts_mono(es, start, stop);
    assert forall|i: int| 0 <= i < a implies !seen_version(row, snapshot, #[trigger] es[i]) by {
        if start == 0 {
            assert(block_start(es, 0, 0) == 0);
        } else {
            assert(below(es[i].0, es[a].0));
            lemma_below_at_most(es[i].0, es[a].0, probe);
            if is_version_of(es[i].0, row) {
                lemma_versions_lie(es[i].0, row, snapshot);
            }
        }
    }
    let low = es.take(a);
    let mid = stretch(es, start, stop);
    let high = es.skip(c);
    assert(es =~= low + (mid + high));
    lemma_first_seen_add(low, mid + high, row, snapshot);
    lemma_first_seen_add(mid, high, row, snapshot);
    lemma_first_seen(low, row, snapshot);
    lemma_first_seen(mid, row, snapshot);
    lemma_first_seen(high, row, snapshot);
    if first_seen(low, row, snapshot) is Some {
        let i = choose|i: int|
            0 <= i < low.len() && seen_version(row, snapshot, #[trigger] low[i]);
        assert(low[i] == es[i]);
    }
    if stop < ix.len() {
        if below(versioned_key(row, 0), ix[stop].0) {
            lemma_none_past(es, row, snapshot, c);
            if first_seen(high, row, snapshot) is Some {
                let i = choose|i: int|
                    0 <= i < high.len() && seen_version(row, snapshot, #[trigger] high[i]);
                assert(high[i] == es[c + i]);
            }
        } else {
            assert(stop - 1 > start && is_version_of(ix[stop - 1].0, row));
            lemma_starts(es, stop - 1);
            lemma_starts(es, start + 1);
            lemma_starts_mono(es, start + 1, stop - 1);
            let m = block_start(es, 0, (stop - 1) as nat);
            assert(below(probe, ix[start + 1].0));
            lemma_below_at_most(probe, ix[start + 1].0, ix[stop - 1].0);
            lemma_below_asymmetric(probe, es[m].0);
            lemma_versions_lie(es[m].0, row, snapshot);
            assert(mid[m - a] == es[m]);
            assert(seen_version(row, snapshot, mid[m - a]));
        }
    } else {
        assert(high =~= Seq::empty());
    }
}

/// A point read gives the newest version of the row at or below the snapshot, a tombstone like
/// any other version, and nothing exactly when there is no such version, whatever other rows
/// there are.
pub proof fn lemma_locate<S: RangeSource>(
    before: &Run<S>,
    after: &Run<S>,
    es: Seq<EntryView>,
    horizon: u64,
    row: Seq<u8>,
    snapshot: u64,
    r: Result<Option<EntryView>, RunError>,
)
    requires
        holds(before, es, horizon),
        locate_outcome(before, after, row, snapshot, r),
    ensures
        match r {
            Ok(Some(e)) => live(es, row, snapshot, e),
            Ok(None) => forall|i: int|
                0 <= i < es.len() ==> !seen_version(row, snapshot, #[trigger] es[i]),
            Err(_) => false,
        },
        honest(after.cache@, es),
{
    let ix = index_from(es, 0, 0);
    lemma_blocks_cover(es, 0, 0);
    lemma_first_seen(es, row, snapshot);
    assert forall|i: int| 0 <= i < es.len() && is_version_of((#[trigger] es[i]).0, row) implies
        admits(before.meta().bloom, row) by {
        lemma_filter_admits(rows_of(es), i);
        assert(rows_of(es)[i] == row);
    }
    if admits(before.meta().bloom, row) && ix.len() > 0 {
        let start = choose|start: int| #[trigger]
            seek_pos(ix, versioned_key(row, snapshot), start) && search(
                &before.src,
                ix,
                row,
                snapshot,
                start,
                before.cache@,
                after.cache@,
                r,
            );
        let stop = span_end(ix, row, start + 1);
        lemma_span_holds(es, row, snapshot, start);
        lemma_point_read_true(
            &before.src,
            es,
            horizon,
            row,
            snapshot,
            start,
            stop,
            before.cache@,
            after.cache@,
            r,
        );
        match first_seen(es, row, snapshot) {
            Some(e) => {
                let f = choose|i: int|
                    0 <= i < es.len() && #[trigger] es[i] == e && seen_version(row, snapshot, e)
                        && forall|j: int|
                        0 <= j < i ==> !seen_version(row, snapshot, #[trigger] es[j]);
                assert forall|i: int| 0 <= i < es.len() && seen_version(
                    row,
                    snapshot,
                    #[trigger] es[i],
                ) implies seq_part(es[i].0).unwrap() <= seq_part(e.0).unwrap() by {
                    if i != f {
                        assert(below(es[f].0, es[i].0));
                        lemma_parts_versioned(es[f].0);
                        lemma_parts_versioned(es[i].0);
                        lemma_newest_first(
                            row,
                            seq_part(es[f].0).unwrap(),
                            seq_part(es[i].0).unwrap(),
                        );
                    }
                }
            },
            None => {},
        }
    }
}

/// The blocks of a run that was built lie one behind the other, so every point read of it costs
/// one ranged read at most.
pub proof fn lemma_locate_costs_one<S: RangeSource>(
    before: &Run<S>,
    after: &Run<S>,
    es: Seq<EntryView>,
    horizon: u64,
    row: Seq<u8>,
    snapshot: u64,
    r: Result<Option<EntryView>, RunError>,
)
    requires
        holds(before, es, horizon),
        locate_outcome(before, after, row, snapshot, r),
    ensures
        read_once(before.cache@, after.cache@),
{
    let ix = index_from(es, 0, 0);
    lemma_run_len(es, 0);
    assert forall|j: int| 0 < j < ix.len() implies #[trigger] adjacent(ix, j) by {
        lemma_blocks_touch(es, 0, 0, j);
    }
    lemma_point_read_costs_one(before, after, row, snapshot, r);
}

} // verus!
